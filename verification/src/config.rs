//! Fixed runtime configuration of the submission layout.

use vstd::prelude::*;

verus! {

pub const INDEX_PATH: &'static str = "/app/data/index.bin";

pub const HEALTH_PORT: u16 = 8080;

pub const LB_PORT: u16 = 9999;

pub const API1_SOCKET: &'static str = "/tmp/sockets/api1.sock";

pub const API2_SOCKET: &'static str = "/tmp/sockets/api2.sock";

/// Control-socket channels the load balancer opens to each API process.
pub const CHANNELS_PER_API: usize = 2;

/// An API process's configuration: where the index is, the control socket
/// it receives connections on, and its health port.
pub struct ServerConfig {
    pub index_path: String,
    pub ctrl_sock: String,
    pub health_port: u16,
}

impl ServerConfig {
    /// The configuration for a control socket path given on the command line.
    pub fn with_ctrl_sock(ctrl_sock: String) -> (c: ServerConfig)
        ensures
            c.index_path@ == INDEX_PATH@,
            c.ctrl_sock@ == ctrl_sock@,
            c.health_port == HEALTH_PORT,
    {
        ServerConfig { index_path: INDEX_PATH.to_owned(), ctrl_sock, health_port: HEALTH_PORT }
    }

    /// The index file path.
    pub fn index_path(&self) -> (r: &str)
        ensures
            r@ == self.index_path@,
    {
        self.index_path.as_str()
    }
}

/// The load balancer's configuration: its port and the control sockets it
/// hands connections to, in round-robin order.
pub struct LbConfig {
    pub port: u16,
    pub upstreams: Vec<String>,
}

impl LbConfig {
    /// Port 9999 and, per channel, the first API's socket then the second's.
    pub fn fixed() -> (c: LbConfig)
        ensures
            c.port == LB_PORT,
            c.upstreams@.len() == 2 * CHANNELS_PER_API,
            forall|i: int|
                0 <= i < c.upstreams@.len() ==> (#[trigger] c.upstreams@[i])@ == (if i % 2 == 0 {
                    API1_SOCKET@
                } else {
                    API2_SOCKET@
                }),
    {
        let mut upstreams: Vec<String> = Vec::new();
        let mut k: usize = 0;
        while k < CHANNELS_PER_API
            invariant
                k <= CHANNELS_PER_API,
                upstreams@.len() == 2 * k,
                forall|i: int|
                    0 <= i < upstreams@.len() ==> (#[trigger] upstreams@[i])@ == (if i % 2 == 0 {
                        API1_SOCKET@
                    } else {
                        API2_SOCKET@
                    }),
            decreases CHANNELS_PER_API - k,
        {
            upstreams.push(API1_SOCKET.to_owned());
            upstreams.push(API2_SOCKET.to_owned());
            k = k + 1;
        }
        LbConfig { port: LB_PORT, upstreams }
    }
}

} // verus!
