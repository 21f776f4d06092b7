//! The service that takes built indices from other processes into the
//! cache: whether it runs, where it listens, and what it does with a message.

use crate::caching::caching::{insert_fsm_to_cache, CachedFSM, ModuleState};
use crate::error::FsmError;
use vstd::prelude::*;
use vstd::string::StringExecFns;

verus! {

/// Where the service listens on a Unix system.
pub const UNIX_ADDRESS: &'static str = "ipc:///tmp/faster_outlines_cache_reciever.ipc";

/// Where the service listens on any other system.
pub const FALLBACK_ADRESS: &'static str = "tcp://127.0.0.1:5555";

/// The file that the service leaves behind on a Unix system.
pub const UNIX_FILE_PATH: &'static str = "/tmp/faster_outlines_cache_reciever.ipc";

/// What the service answers to a message that it has taken into the cache.
pub const INSERTED: &'static str = "Inserted";

/// The receiving end of the cache service.
pub struct ZMQReciever {
    /// Whether the service runs.
    pub running: bool,
}

impl ZMQReciever {
    /// A service that does not run yet.
    pub fn new() -> (r: ZMQReciever)
        ensures
            !r.running,
    {
        ZMQReciever { running: false }
    }

    /// Records that the service was started.
    pub fn start_cache_service(&mut self)
        ensures
            final(self).running,
    {
        self.running = true;
    }

    /// Records that the service was stopped. A service that does not run
    /// cannot be stopped.
    pub fn stop_cache_service(&mut self) -> (r: Result<(), FsmError>)
        ensures
            r is Ok <==> old(self).running,
            r matches Err(e) ==> e == FsmError::ServiceNotRunning,
            !final(self).running,
    {
        if self.running {
            self.running = false;
            Ok(())
        } else {
            Err(FsmError::ServiceNotRunning)
        }
    }
}

/// Starts the service: from now on it runs.
pub fn start_zmq_thread(service: &mut ZMQReciever) -> (r: Result<(), FsmError>)
    ensures
        r is Ok,
        final(service).running,
{
    service.start_cache_service();
    Ok(())
}

/// Stops the service. A service that does not run cannot be stopped.
pub fn stop_zmq_thread(service: &mut ZMQReciever) -> (r: Result<(), FsmError>)
    ensures
        r is Ok <==> old(service).running,
        r matches Err(e) ==> e == FsmError::ServiceNotRunning,
        !final(service).running,
{
    service.stop_cache_service()
}

/// The address at which the service listens: the socket file on a Unix
/// system, and the local TCP address on any other.
pub fn service_address(unix: bool) -> (address: String)
    ensures
        address@ == (if unix {
            UNIX_ADDRESS@
        } else {
            FALLBACK_ADRESS@
        }),
{
    if unix {
        String::from_str(UNIX_ADDRESS)
    } else {
        String::from_str(FALLBACK_ADRESS)
    }
}

/// Whether the service runs, and the address at which it listens.
pub fn check_zmq_service_running(service: &ZMQReciever, unix: bool) -> (r: (bool, String))
    ensures
        r.0 == service.running,
        r.1@ == (if unix {
            UNIX_ADDRESS@
        } else {
            FALLBACK_ADRESS@
        }),
{
    (service.running, service_address(unix))
}

/// What the service does with a message: an index that could be read from
/// the message is handed to the cache under its own fingerprint and
/// acknowledged; a message that could not be read is dropped without an
/// answer.
pub fn handle_message(cache: &mut ModuleState, received: Option<CachedFSM>) -> (reply: Option<
    String,
>)
    ensures
        match received {
            Some(fsm) => {
                &&& final(cache)@ == old(cache)@.after_insert(fsm@, fsm.hash)
                &&& reply matches Some(text)
                &&& text@ == INSERTED@
            },
            None => final(cache)@ == old(cache)@ && reply is None,
        },
{
    match received {
        Some(fsm) => {
            let hash = fsm.hash;
            insert_fsm_to_cache(cache, fsm, hash);
            Some(String::from_str(INSERTED))
        },
        None => None,
    }
}

} // verus!
