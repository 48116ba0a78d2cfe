//! The arguments with which a node is started.

use vstd::prelude::*;
use crate::text::{host_of, read_host, read_typed_int, typed_i64_of};

verus! {

/// How a node is to start.
#[derive(Debug, Clone, Copy, PartialEq, Eq, Structural)]
pub enum Param {
    /// Alone: the first node of a ring.
    Short { ip: u32, port: i64, id: i64 },
    /// By joining the ring through the node at the destination.
    Long { ip_local: u32, port_local: i64, id_local: i64, ip_destination: u32, port_destination: i64 },
}

/// What an argument list asks for. The list begins with the program's
/// name; behind it stand either a host, a port and an id, or these three
/// and the host and port of a node of the ring. Anything else asks for
/// nothing.
pub open spec fn param_of(args: Seq<Seq<char>>) -> Option<Param> {
    if args.len() == 4 {
        match (host_of(args[1]), typed_i64_of(args[2]), typed_i64_of(args[3])) {
            (Some(ip), Some(port), Some(id)) => Some(Param::Short { ip, port, id }),
            _ => None,
        }
    } else if args.len() == 6 {
        match (
            host_of(args[1]),
            typed_i64_of(args[2]),
            typed_i64_of(args[3]),
            host_of(args[4]),
            typed_i64_of(args[5]),
        ) {
            (
                Some(ip_local),
                Some(port_local),
                Some(id_local),
                Some(ip_destination),
                Some(port_destination),
            ) => Some(
                Param::Long { ip_local, port_local, id_local, ip_destination, port_destination },
            ),
            _ => None,
        }
    } else {
        None
    }
}

/// The texts of an argument list.
pub open spec fn texts(args: Seq<String>) -> Seq<Seq<char>> {
    Seq::new(args.len(), |k: int| args[k]@)
}

/// Reads an argument list.
pub fn get_args(args: &Vec<String>) -> (param: Option<Param>)
    ensures
        param == param_of(texts(args@)),
{
    if args.len() == 4 {
        match (
            read_host(args[1].as_str()),
            read_typed_int(args[2].as_str()),
            read_typed_int(args[3].as_str()),
        ) {
            (Some(ip), Some(port), Some(id)) => Some(Param::Short { ip, port, id }),
            _ => None,
        }
    } else if args.len() == 6 {
        match (
            read_host(args[1].as_str()),
            read_typed_int(args[2].as_str()),
            read_typed_int(args[3].as_str()),
            read_host(args[4].as_str()),
            read_typed_int(args[5].as_str()),
        ) {
            (
                Some(ip_local),
                Some(port_local),
                Some(id_local),
                Some(ip_destination),
                Some(port_destination),
            ) => Some(
                Param::Long { ip_local, port_local, id_local, ip_destination, port_destination },
            ),
            _ => None,
        }
    } else {
        None
    }
}

} // verus!
