//! The mail program on a terminal: what it does on each line that is typed
//! and on each thing that happens. Reading, writing and connecting are left
//! to the caller.

use vstd::prelude::*;

pub mod app;
pub mod args;
pub mod args_laws;
pub mod command_laws;
pub mod compose;
pub mod flow_laws;
pub mod laws;
pub mod model;
pub mod save;
pub mod say;
pub mod target;

verus! {

/// How the program is started.
pub const USAGE: &'static str = "usage: b2fmsg --call MYCALL [options]

  --call MYCALL        your callsign (the Winlink account), e.g. SA0KAM
  --locator GRID       Maidenhead locator sent in the handshake, e.g. JO89
  --mailbox DIR        mailbox root (default: see below); Pat's mailbox works too
  --password-file F    file holding your Winlink password (else $B2FMSG_PASSWORD,
                       else you are asked when connecting)

links:
  --cms HOST:PORT      Winlink CMS telnet server        (default server.winlink.org:8772)
  --agw HOST:PORT      Direwolf AGW port for ax25       (default 127.0.0.1:8000)
  --agw-port N         radio port on the AGW server     (default 0)
  --paclen N           bytes per AX.25 frame            (default 128)
  --timeout SECS       give up after this long without hearing the remote
                       (default 120 over TCP, 600 over radio)

  --once \"CONNECT\"     run one exchange and exit, e.g. --once cms or
                       --once \"ax25 SK0XYZ-10\"; exit status 1 on failure
  --quiet              hide the protocol transcript (toggle with trace)
  --no-color           plain output (also when NO_COLOR is set or output is piped)";

/// What can be typed.
pub const COMMANDS: &'static str = "commands:
  compose                  write a message: To, Cc, Subject, body ending with a
                           line holding only \".\", then attachments (~q cancels)
  msg TO text              quick message; the text is also the subject
                           e.g.  msg friend@example.com Arrived at the cabin, all well
  inbox | outbox | sent    list a folder; the numbers are used below
  read N                   show message N from the last list
  save N [DIR]             write message N's attachments (default: current directory)
  delete N                 delete message N from the last list
  connect                  exchange mail with the Winlink CMS over the internet
  connect ax25 GW [via D]  through an RMS gateway via Direwolf, e.g.
                           connect ax25 SK0XYZ-10   connect ax25 SK0XYZ-10 via SK0DIG
  connect p2p HOST:PORT CALL   peer-to-peer over TCP (another b2fmsg or Pat)
  listen [HOST:PORT]       accept peer-to-peer TCP calls (default 0.0.0.0:8774)
  stop                     stop listening
  abort                    stop the running exchange
  trace                    toggle the protocol transcript
  quit

markers:  → queued   ✓ delivered   ← received   ✗ failed   › ‹ protocol (trace)";

} // verus!
