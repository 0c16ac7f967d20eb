//! Which engine a data directory is made with.

use vstd::prelude::*;

use crate::error::KvsError;

verus! {

/// The two storage engines a directory can be made with.
#[derive(Debug, Clone, Copy, PartialEq, Eq, Structural)]
pub enum KvsEngineSel {
    KvStore,
    SledKvsEngine,
}

impl KvsEngineSel {
    /// The name under which the engine is written to the metadata file.
    pub open spec fn spec_name(self) -> Seq<char> {
        match self {
            KvsEngineSel::KvStore => "kvs"@,
            KvsEngineSel::SledKvsEngine => "sled"@,
        }
    }

    /// The name under which the engine is written to the metadata file.
    pub fn name(&self) -> (r: &'static str)
        ensures
            r@ == self.spec_name(),
    {
        match self {
            KvsEngineSel::KvStore => "kvs",
            KvsEngineSel::SledKvsEngine => "sled",
        }
    }

    /// Reads an engine name: `kvs` or `sled`, nothing else.
    pub fn parse(s: &str) -> (r: Result<KvsEngineSel, KvsError>)
        ensures
            s@ == "kvs"@ ==> r == Ok::<KvsEngineSel, KvsError>(KvsEngineSel::KvStore),
            s@ == "sled"@ ==> r == Ok::<KvsEngineSel, KvsError>(KvsEngineSel::SledKvsEngine),
            s@ != "kvs"@ && s@ != "sled"@ ==> (r matches Err(KvsError::InvalidEngine(t)) && t@
                == s@),
    {
        proof {
            reveal_strlit("kvs");
            reveal_strlit("sled");
            assert("kvs"@.len() != "sled"@.len());
        }
        let t = s.to_owned();
        if t == "kvs".to_owned() {
            Ok(KvsEngineSel::KvStore)
        } else if t == "sled".to_owned() {
            Ok(KvsEngineSel::SledKvsEngine)
        } else {
            Err(KvsError::InvalidEngine(t))
        }
    }
}

impl std::str::FromStr for KvsEngineSel {
    type Err = KvsError;

    fn from_str(s: &str) -> Result<KvsEngineSel, KvsError> {
        KvsEngineSel::parse(s)
    }
}

impl Default for KvsEngineSel {
    fn default() -> (r: KvsEngineSel)
        ensures
            r == KvsEngineSel::KvStore,
    {
        KvsEngineSel::KvStore
    }
}

/// What starting a server in a directory does about the engine: which one runs,
/// and whether its name must be written to the metadata file.
pub open spec fn spec_resolve_engine(
    on_disk: Option<KvsEngineSel>,
    requested: Option<KvsEngineSel>,
) -> Result<(KvsEngineSel, bool), KvsError> {
    match on_disk {
        Some(d) => match requested {
            Some(c) => if c == d {
                Ok((d, false))
            } else {
                Err(KvsError::MisMatchEngine { e_disk: d, e_cli: c })
            },
            None => Ok((d, false)),
        },
        None => match requested {
            Some(c) => Ok((c, true)),
            None => Ok((KvsEngineSel::KvStore, true)),
        },
    }
}

/// Chooses the engine from the one recorded on disk and the one asked for:
/// a recorded engine wins and must agree with a request; with none recorded the
/// request, else `kvs`, is chosen and is to be recorded (`true`).
pub fn resolve_engine(on_disk: Option<KvsEngineSel>, requested: Option<KvsEngineSel>) -> (r:
    Result<(KvsEngineSel, bool), KvsError>)
    ensures
        r == spec_resolve_engine(on_disk, requested),
{
    match on_disk {
        Some(d) => match requested {
            Some(c) => if c == d {
                Ok((d, false))
            } else {
                Err(KvsError::MisMatchEngine { e_disk: d, e_cli: c })
            },
            None => Ok((d, false)),
        },
        None => match requested {
            Some(c) => Ok((c, true)),
            None => Ok((KvsEngineSel::default(), true)),
        },
    }
}

} // verus!
