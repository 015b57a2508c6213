//! The configuration of the key-churning demonstration against a key
//! value store, and the parsing of the store's keyspace summary line.
//! The connections and commands themselves happen outside the library.

use vstd::prelude::*;

use crate::text::{find, find_byte, parse_u64, parsed_u64};

verus! {

/// The configuration of one run: how many tasks, each inserting and then
/// deleting how many keys.
pub struct RedisKeys {
    pub tasks: u64,
    pub keys: u64,
}

impl RedisKeys {
    pub fn new(tasks: u64, keys: u64) -> (r: RedisKeys)
        ensures
            r.tasks == tasks,
            r.keys == keys,
    {
        RedisKeys { tasks, keys }
    }
}

/// The key count a keyspace summary line denotes.  The line looks like
/// "keys=123,expires=0,...": everything before the first comma is taken,
/// the part after its first equals sign is parsed as a number, and any
/// missing piece or unparsable number counts as zero.
pub open spec fn key_count_of_db0(s: Seq<u8>) -> int {
    let ci = find_byte(s, 44);
    if ci < 0 {
        0
    } else {
        let head = s.take(ci);
        let ei = find_byte(head, 61);
        if ei < 0 {
            0
        } else {
            match parsed_u64(head.skip(ei + 1)) {
                Some(x) => x as int,
                None => 0,
            }
        }
    }
}

/// Extract the key count from a keyspace summary line.
pub fn keys_from_db0(db0: &[u8]) -> (r: u64)
    ensures
        r == key_count_of_db0(db0@),
{
    let ci = match find(db0, 44) {
        Some(i) => i,
        None => {
            return 0;
        },
    };
    let head = vstd::slice::slice_subrange(db0, 0, ci);
    proof {
        assert(head@ =~= db0@.take(ci as int));
    }
    let ei = match find(head, 61) {
        Some(i) => i,
        None => {
            return 0;
        },
    };
    let value = vstd::slice::slice_subrange(head, ei + 1, head.len());
    proof {
        assert(value@ =~= head@.skip(ei as int + 1));
    }
    match parse_u64(value) {
        Some(v) => v,
        None => 0,
    }
}

} // verus!
