//! The interfaces that a store and a worker pool offer to the server.
use vstd::prelude::*;
use crate::error::MyErr;

verus! {

/// A key-value engine: a cheaply cloned handle whose clones share one store.
pub trait KvsEngine: Clone {
    /// Sets the value of `key`.
    fn set(&self, key: String, value: String) -> Result<(), MyErr>;

    /// The value of `key`, or `None` where it holds none.
    fn get(&self, key: String) -> Result<Option<String>, MyErr>;

    /// Removes `key`; `KeyNotFound` where it holds no value.
    fn remove(&self, key: String) -> Result<(), MyErr>;
}

/// A pool of worker threads that runs jobs.
pub trait ThreadPool {
    /// A pool of `threads` workers.
    fn new(threads: u32) -> Result<Self, MyErr> where Self: Sized;

    /// Hands `job` to a worker.
    fn spawn<F: FnOnce() + Send + 'static>(&self, job: F);
}

/// The engines a server can run.
#[derive(Debug, Clone, Copy, PartialEq, Eq, Structural)]
pub enum EngineKind {
    Kvs,
    Sled,
}

/// What a directory entry says of the engine that wrote it: a segment file
/// (extension `kvs` after a non-empty stem; `.kvs` alone is a hidden file
/// without extension) the log-structured engine, an entry named `db` the sled
/// one, anything else nothing.
pub open spec fn entry_engine(name: Seq<char>) -> Option<EngineKind> {
    if name.len() >= 5 && name.subrange(name.len() - 4, name.len() as int) == ".kvs"@ {
        Some(EngineKind::Kvs)
    } else if name == "db"@ {
        Some(EngineKind::Sled)
    } else {
        None
    }
}

/// The engine that the first telling entry names, if any.
pub open spec fn detected_engine(names: Seq<Seq<char>>) -> Option<EngineKind>
    decreases names.len(),
{
    if names.len() == 0 {
        None
    } else if entry_engine(names[0]) is Some {
        entry_engine(names[0])
    } else {
        detected_engine(names.drop_first())
    }
}

fn is_segment_name(name: &str) -> (r: bool)
    ensures
        r == (name@.len() >= 5 && name@.subrange(name@.len() - 4, name@.len() as int)
            == ".kvs"@),
{
    let n = name.unicode_len();
    proof {
        reveal_strlit(".kvs");
    }
    if n < 5 {
        return false;
    }
    let r = name.get_char(n - 4) == '.' && name.get_char(n - 3) == 'k' && name.get_char(n - 2)
        == 'v' && name.get_char(n - 1) == 's';
    proof {
        let tail = name@.subrange(n - 4, n as int);
        let lit = ".kvs"@;
        assert(lit =~= seq!['.', 'k', 'v', 's']);
        assert(tail[0] == name@[n - 4] && tail[1] == name@[n - 3] && tail[2] == name@[n - 2]
            && tail[3] == name@[n - 1]);
        if r {
            assert(tail =~= lit);
        } else if tail == lit {
            assert(tail[0] == lit[0] && tail[1] == lit[1] && tail[2] == lit[2] && tail[3]
                == lit[3]);
        }
    }
    r
}

fn is_sled_name(name: &str) -> (r: bool)
    ensures
        r == (name@ == "db"@),
{
    let n = name.unicode_len();
    proof {
        reveal_strlit("db");
    }
    if n != 2 {
        return false;
    }
    let r = name.get_char(0) == 'd' && name.get_char(1) == 'b';
    proof {
        let lit = "db"@;
        assert(lit =~= seq!['d', 'b']);
        if r {
            assert(name@ =~= lit);
        } else if name@ == lit {
            assert(name@[0] == lit[0] && name@[1] == lit[1]);
        }
    }
    r
}

/// The engine that wrote a directory, from the names of its entries in the
/// order they are listed: the first segment file or sled `db` entry decides.
pub fn last_engine(names: &Vec<String>) -> (r: Option<EngineKind>)
    ensures
        r == detected_engine(names@.map_values(|s: String| s@)),
{
    let ghost all = names@.map_values(|s: String| s@);
    let mut i: usize = 0;
    assert(all.subrange(0, all.len() as int) =~= all);
    while i < names.len()
        invariant
            i <= names@.len(),
            all == names@.map_values(|s: String| s@),
            detected_engine(all) == detected_engine(all.subrange(i as int, all.len() as int)),
        decreases names@.len() - i,
    {
        let name = names[i].as_str();
        let ghost rest = all.subrange(i as int, all.len() as int);
        assert(rest[0] == name@);
        assert(rest.drop_first() =~= all.subrange(i + 1, all.len() as int));
        if is_segment_name(name) {
            return Some(EngineKind::Kvs);
        }
        if is_sled_name(name) {
            return Some(EngineKind::Sled);
        }
        i = i + 1;
    }
    assert(all.subrange(i as int, all.len() as int) =~= Seq::<Seq<char>>::empty());
    None
}

/// The engine to start: the one asked for, which must agree with the one
/// that wrote the directory, else the one that wrote it, else the
/// log-structured engine. `WrongEngine` exactly when the two disagree.
pub fn choose_engine(requested: Option<EngineKind>, detected: Option<EngineKind>) -> (r: Result<
    EngineKind,
    MyErr,
>)
    ensures
        r == match (requested, detected) {
            (Some(a), Some(b)) => if a == b {
                Ok(a)
            } else {
                Err(MyErr::WrongEngine)
            },
            (Some(a), None) => Ok(a),
            (None, Some(b)) => Ok(b),
            (None, None) => Ok(EngineKind::Kvs),
        },
{
    match (requested, detected) {
        (Some(a), Some(b)) => if a == b {
            Ok(a)
        } else {
            Err(MyErr::WrongEngine)
        },
        (Some(a), None) => Ok(a),
        (None, Some(b)) => Ok(b),
        (None, None) => Ok(EngineKind::Kvs),
    }
}

} // verus!
