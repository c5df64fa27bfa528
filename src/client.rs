//! The IPC client: where the core listens, and the request/response framing
//! it uses. Opening the channel and moving bytes is left to the caller.

use vstd::prelude::*;
use vstd::string::{StringExecFns, StringSliceAdditionalSpecFns};
use crate::codec::{build_request, request_text, status_code, status_code_of, ProtocolError};

verus! {

/// The kind of local channel the core listens on.
#[derive(Debug, Clone, Copy, PartialEq, Eq, Structural)]
pub enum Transport {
    /// A Windows named pipe.
    NamedPipe,
    /// A Unix domain socket.
    UnixSocket,
}

/// The well-known endpoint of the core for a transport; development builds
/// use a `_dev` name so that they never meet a release build.
pub open spec fn ipc_path_for(transport: Transport, dev: bool) -> Seq<char> {
    match transport {
        Transport::NamedPipe => if dev {
            "\\\\.\\pipe\\stelliberty_dev"@
        } else {
            "\\\\.\\pipe\\stelliberty"@
        },
        Transport::UnixSocket => if dev {
            "/tmp/stelliberty_dev.sock"@
        } else {
            "/tmp/stelliberty.sock"@
        },
    }
}

/// A client of the core's IPC endpoint. Two clients are equal when their
/// endpoint addresses are.
pub struct IpcClient {
    ipc_path: String,
}

impl IpcClient {
    pub closed spec fn endpoint(&self) -> Seq<char> {
        self.ipc_path@
    }

    /// A client of the endpoint at `ipc_path`.
    pub fn new(ipc_path: String) -> (r: IpcClient)
        ensures
            r.endpoint() == ipc_path@,
    {
        IpcClient { ipc_path }
    }

    /// The endpoint address.
    pub fn ipc_path(&self) -> (r: &str)
        ensures
            r@ == self.endpoint(),
    {
        self.ipc_path.as_str()
    }

    /// Whether two clients address the same endpoint.
    pub fn same_endpoint(&self, other: &IpcClient) -> (r: bool)
        ensures
            r == (self.endpoint() == other.endpoint()),
    {
        self.ipc_path == other.ipc_path
    }

    /// The default endpoint for `transport`, in a development (`dev`) or a
    /// release build.
    pub fn default_ipc_path(transport: Transport, dev: bool) -> (r: String)
        ensures
            r@ == ipc_path_for(transport, dev),
    {
        match transport {
            Transport::NamedPipe => if dev {
                String::from_str("\\\\.\\pipe\\stelliberty_dev")
            } else {
                String::from_str("\\\\.\\pipe\\stelliberty")
            },
            Transport::UnixSocket => if dev {
                String::from_str("/tmp/stelliberty_dev.sock")
            } else {
                String::from_str("/tmp/stelliberty.sock")
            },
        }
    }

    /// The request text for `method` on `path`, with an optional JSON body.
    pub fn build_http_request_static(method: &str, path: &str, body: Option<&str>) -> (r: String)
        ensures
            r@ == request_text(method@, path@, body),
    {
        build_request(method, path, body)
    }

    /// The request text for `method` on `path`, with an optional JSON body.
    pub fn build_http_request(&self, method: &str, path: &str, body: Option<&str>) -> (r: String)
        ensures
            r@ == request_text(method@, path@, body),
    {
        build_request(method, path, body)
    }

    /// The status code of a status line such as `HTTP/1.1 200 OK`.
    pub fn parse_status_code_static(status_line: &str) -> (r: Result<u16, ProtocolError>)
        ensures
            r == status_code_of(status_line.spec_bytes()),
    {
        status_code(status_line.as_bytes())
    }

    /// The status code of a status line such as `HTTP/1.1 200 OK`.
    pub fn parse_status_code(&self, status_line: &str) -> (r: Result<u16, ProtocolError>)
        ensures
            r == status_code_of(status_line.spec_bytes()),
    {
        status_code(status_line.as_bytes())
    }
}

} // verus!
