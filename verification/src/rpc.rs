//! Values learned from an upstream node through its RPC interface.

use vstd::prelude::*;
use crate::text::format_hex_bytes;
use crate::text::hex_bytes;

verus! {

/// File descriptors that a node keeps for its own needs.
pub const FD_MARGIN: u64 = 1024;

/// Client sockets that one CPU core is taken to serve.
pub const SOCKETS_PER_CORE: u64 = 768;

/// The descriptor limit assumed when a node reports less than the margin.
pub const FD_FALLBACK: u64 = 32;

/// The number that eight bytes spell, most significant byte first.
pub open spec fn be_u64(b: Seq<u8>) -> int {
    ((((((b[0] as int * 256 + b[1] as int) * 256 + b[2] as int) * 256 + b[3] as int) * 256
        + b[4] as int) * 256 + b[5] as int) * 256 + b[6] as int) * 256 + b[7] as int
}

/// The system identifier spelled by the first eight bytes of what a node
/// reports; zero where it reports nothing or fewer than eight bytes.
pub open spec fn system_id_of(raw: Option<Seq<u8>>) -> int {
    match raw {
        Some(b) => if b.len() >= 8 {
            be_u64(b)
        } else {
            0
        },
        None => 0,
    }
}

/// The descriptors left to clients once the margin is taken off.
pub open spec fn usable_fd_limit(fd_limit: int) -> int {
    if fd_limit >= FD_MARGIN {
        fd_limit - FD_MARGIN
    } else {
        FD_FALLBACK as int
    }
}

/// The smaller of two numbers.
pub open spec fn min_of(a: int, b: int) -> int {
    if a <= b {
        a
    } else {
        b
    }
}

/// What a node reports about itself once per connection epoch.
#[derive(Debug)]
pub struct Caps {
    version: String,
    system_id: u64,
    git_hash: Option<String>,
    total_memory: u64,
    cpu_physical_cores: u64,
    fd_limit: u64,
    clients_limit: u64,
    capacity: u64,
}

/// The mathematical value of [`Caps`].
pub struct CapsView {
    /// The version of the node software.
    pub version: Seq<char>,
    /// The identifier of the physical host.
    pub system_id: u64,
    /// The revision the node was built from, in hexadecimal.
    pub git_hash: Option<Seq<char>>,
    /// The memory of the host in bytes.
    pub total_memory: u64,
    /// The number of CPU cores of the host.
    pub cpu_physical_cores: u64,
    /// The file descriptors that clients and peers may use.
    pub fd_limit: u64,
    /// The clients the node is taken to serve at most.
    pub clients_limit: u64,
    /// The smaller of the two limits.
    pub capacity: u64,
}

impl CapsView {
    /// The capacity is the smaller of the descriptor limit and the client limit.
    pub open spec fn wf(self) -> bool {
        self.capacity == min_of(self.fd_limit as int, self.clients_limit as int)
    }
}

impl View for Caps {
    type V = CapsView;

    closed spec fn view(&self) -> CapsView {
        CapsView {
            version: self.version@,
            system_id: self.system_id,
            git_hash: match self.git_hash {
                Some(h) => Some(h@),
                None => None,
            },
            total_memory: self.total_memory,
            cpu_physical_cores: self.cpu_physical_cores,
            fd_limit: self.fd_limit,
            clients_limit: self.clients_limit,
            capacity: self.capacity,
        }
    }
}

/// The capabilities derived from the raw system information of a node.
pub open spec fn caps_of(
    version: Seq<char>,
    system_id: Option<Seq<u8>>,
    git_hash: Option<Seq<u8>>,
    cpu_physical_cores: u16,
    total_memory: u64,
    fd_limit: u32,
) -> CapsView {
    CapsView {
        version,
        system_id: system_id_of(system_id) as u64,
        git_hash: match git_hash {
            Some(h) => Some(hex_bytes(h)),
            None => None,
        },
        total_memory,
        cpu_physical_cores: cpu_physical_cores as u64,
        fd_limit: usable_fd_limit(fd_limit as int) as u64,
        clients_limit: (cpu_physical_cores * SOCKETS_PER_CORE) as u64,
        capacity: min_of(
            usable_fd_limit(fd_limit as int),
            cpu_physical_cores * SOCKETS_PER_CORE,
        ) as u64,
    }
}

impl Caps {
    #[verifier::type_invariant]
    spec fn consistent(&self) -> bool {
        self@.wf()
    }

    /// Recalls that all capabilities are consistent; does nothing when run.
    pub fn attest(&self)
        ensures
            self@.wf(),
    {
        proof {
            use_type_invariant(self);
        }
    }

    /// Returns the version of the node software.
    pub fn version(&self) -> (s: &str)
        ensures
            s@ == self@.version,
    {
        self.version.as_str()
    }

    /// Returns the revision the node was built from.
    pub fn git_hash(&self) -> (h: Option<&str>)
        ensures
            match h {
                Some(s) => self@.git_hash == Some(s@),
                None => self@.git_hash is None,
            },
    {
        match &self.git_hash {
            Some(s) => Some(s.as_str()),
            None => None,
        }
    }

    /// Returns the memory of the host in bytes.
    pub fn total_memory(&self) -> (n: u64)
        ensures
            n == self@.total_memory,
    {
        self.total_memory
    }

    /// Returns the number of CPU cores of the host.
    pub fn cpu_physical_cores(&self) -> (n: u64)
        ensures
            n == self@.cpu_physical_cores,
    {
        self.cpu_physical_cores
    }

    /// Returns the file descriptors that clients and peers may use.
    pub fn fd_limit(&self) -> (n: u64)
        ensures
            n == self@.fd_limit,
    {
        self.fd_limit
    }

    /// Returns the number of clients the node is taken to serve at most.
    pub fn clients_limit(&self) -> (n: u64)
        ensures
            n == self@.clients_limit,
    {
        self.clients_limit
    }

    /// Returns the client capacity of the node.
    pub fn capacity(&self) -> (n: u64)
        ensures
            n == self@.capacity,
    {
        self.capacity
    }

    /// Derives the capabilities of a node from its raw system information: the
    /// descriptor limit less the margin, the client limit by the number of
    /// cores, and the capacity as the smaller of the two.
    pub fn from_system_info(
        version: String,
        system_id: Option<Vec<u8>>,
        git_hash: Option<Vec<u8>>,
        cpu_physical_cores: u16,
        total_memory: u64,
        fd_limit: u32,
    ) -> (caps: Caps)
        ensures
            caps@ == caps_of(
                version@,
                match system_id {
                    Some(b) => Some(b@),
                    None => None,
                },
                match git_hash {
                    Some(h) => Some(h@),
                    None => None,
                },
                cpu_physical_cores,
                total_memory,
                fd_limit,
            ),
            caps@.wf(),
    {
        let fd = fd_limit as u64;
        let fd_limit_actual: u64 = if fd >= FD_MARGIN {
            fd - FD_MARGIN
        } else {
            FD_FALLBACK
        };
        let cores = cpu_physical_cores as u64;
        let clients_limit: u64 = cores * SOCKETS_PER_CORE;
        let capacity: u64 = if fd_limit_actual <= clients_limit {
            fd_limit_actual
        } else {
            clients_limit
        };
        let id: u64 = match &system_id {
            Some(b) => if b.len() >= 8 {
                let mut acc: u64 = 0;
                let mut i: usize = 0;
                while i < 8
                    invariant
                        i <= 8,
                        b@.len() >= 8,
                        i == 0 ==> acc == 0,
                        i == 1 ==> acc == b@[0] as int,
                        i == 2 ==> acc == b@[0] as int * 256 + b@[1] as int,
                        i == 3 ==> acc == (b@[0] as int * 256 + b@[1] as int) * 256 + b@[2] as int,
                        i == 4 ==> acc == ((b@[0] as int * 256 + b@[1] as int) * 256
                            + b@[2] as int) * 256 + b@[3] as int,
                        i == 5 ==> acc == (((b@[0] as int * 256 + b@[1] as int) * 256
                            + b@[2] as int) * 256 + b@[3] as int) * 256 + b@[4] as int,
                        i == 6 ==> acc == ((((b@[0] as int * 256 + b@[1] as int) * 256
                            + b@[2] as int) * 256 + b@[3] as int) * 256 + b@[4] as int) * 256
                            + b@[5] as int,
                        i == 7 ==> acc == (((((b@[0] as int * 256 + b@[1] as int) * 256
                            + b@[2] as int) * 256 + b@[3] as int) * 256 + b@[4] as int) * 256
                            + b@[5] as int) * 256 + b@[6] as int,
                        i == 8 ==> acc == be_u64(b@),
                    decreases 8 - i,
                {
                    acc = acc * 256 + b[i] as u64;
                    i += 1;
                }
                acc
            } else {
                0
            },
            None => 0,
        };
        let git = match &git_hash {
            Some(h) => Some(format_hex_bytes(h)),
            None => None,
        };
        Caps {
            version,
            system_id: id,
            git_hash: git,
            total_memory,
            cpu_physical_cores: cores,
            fd_limit: fd_limit_actual,
            clients_limit,
            capacity,
        }
    }

    /// Returns the identifier of the physical host of the node.
    pub fn system_id(&self) -> (id: u64)
        ensures
            id == self@.system_id,
    {
        self.system_id
    }
}

/// The connection counts reported by a node.
#[derive(Debug, Clone, Copy, PartialEq, Eq, Structural)]
pub struct Connections {
    pub clients: u64,
    pub peers: u64,
}

} // verus!
