use vstd::prelude::*;
use crate::codec::{enc_config, dec_config, dec_num, append_str_list, append_field, append_count, parse_str_list, parse_field, parse_count};
use vstd::string::StrSliceExecFns;

verus! {

/// Tool configuration: the ordered mirror list, where archives and extracted
/// packages are kept, and whether checksums are enforced.
pub struct Config {
    mirrors: Vec<String>,
    storage_location: String,
    checksum: bool,
}

/// Mathematical model of a configuration.
pub struct ConfigModel {
    pub mirrors: Seq<Seq<char>>,
    pub storage_location: Seq<char>,
    pub checksum: bool,
}

impl View for Config {
    type V = ConfigModel;

    closed spec fn view(&self) -> ConfigModel {
        ConfigModel {
            mirrors: self.mirrors@.map_values(|m: String| m@),
            storage_location: self.storage_location@,
            checksum: self.checksum,
        }
    }
}

impl Config {
    /// The stock configuration used when none is saved yet.
    pub fn default() -> (r: Self)
        ensures
            r@.mirrors.len() == 2,
            r@.mirrors[0] == "http://repo.wombatlinux.org"@,
            r@.mirrors[1] == "https://afroraydude.com/wl/repo"@,
            r@.storage_location == "/var/uspm/storage"@,
            r@.checksum == false,
    {
        let mut mirrors: Vec<String> = Vec::new();
        mirrors.push(String::from_str("http://repo.wombatlinux.org"));
        mirrors.push(String::from_str("https://afroraydude.com/wl/repo"));
        let r = Config {
            mirrors,
            storage_location: String::from_str("/var/uspm/storage"),
            checksum: false,
        };
        proof {
            assert(r@.mirrors[0] == r.mirrors@[0]@);
            assert(r@.mirrors[1] == r.mirrors@[1]@);
        }
        r
    }

    pub fn mirrors(&self) -> (r: &Vec<String>)
        ensures
            r@.map_values(|m: String| m@) == self@.mirrors,
    {
        &self.mirrors
    }

    pub fn storage_location(&self) -> (r: &String)
        ensures
            r@ == self@.storage_location,
    {
        &self.storage_location
    }

    pub fn set_storage_location(&mut self, storage_location: String)
        ensures
            final(self)@.storage_location == storage_location@,
            final(self)@.mirrors == old(self)@.mirrors,
            final(self)@.checksum == old(self)@.checksum,
    {
        self.storage_location = storage_location;
    }

    pub fn add_mirror(&mut self, mirror: String)
        ensures
            final(self)@.mirrors == old(self)@.mirrors.push(mirror@),
            final(self)@.storage_location == old(self)@.storage_location,
            final(self)@.checksum == old(self)@.checksum,
    {
        self.mirrors.push(mirror);
        proof {
            assert(final(self)@.mirrors =~= old(self)@.mirrors.push(mirror@));
        }
    }

    /// Drop every mirror equal to `mirror`, keeping the order of the rest.
    pub fn remove_mirror(&mut self, mirror: String)
        ensures
            final(self)@.mirrors == old(self)@.mirrors.filter(|m: Seq<char>| m != mirror@),
            final(self)@.storage_location == old(self)@.storage_location,
            final(self)@.checksum == old(self)@.checksum,
    {
        let ghost pred = |m: Seq<char>| m != mirror@;
        let ghost s0 = self@.mirrors;
        let mut kept: Vec<String> = Vec::new();
        let mut i: usize = 0;
        while i < self.mirrors.len()
            invariant
                i <= self.mirrors.len(),
                s0 == self@.mirrors,
                pred == (|m: Seq<char>| m != mirror@),
                kept@.len() == s0.take(i as int).filter(pred).len(),
                forall|x: int|
                    0 <= x < kept@.len() ==> #[trigger] kept@[x]@ == s0.take(i as int).filter(
                        pred,
                    )[x],
                forall|x: int| 0 <= x < s0.len() ==> #[trigger] s0[x] == self.mirrors@[x]@,
            decreases self.mirrors.len() - i,
        {
            let ghost kept0 = kept@;
            let ghost prev = s0.take(i as int).filter(pred);
            let keep = !self.mirrors[i].eq(&mirror);
            if keep {
                kept.push(self.mirrors[i].clone());
            }
            proof {
                reveal(Seq::filter);
                let cur = s0.take(i + 1).filter(pred);
                assert(s0.take(i + 1).drop_last() =~= s0.take(i as int));
                assert(s0.take(i + 1).last() == s0[i as int]);
                if keep {
                    assert(pred(s0[i as int]));
                    assert(cur == prev.push(s0[i as int]));
                    assert(kept@ == kept0.push(kept@[kept0.len() as int]));
                    assert(kept@[kept0.len() as int]@ == s0[i as int]);
                } else {
                    assert(!pred(s0[i as int]));
                    assert(cur == prev);
                }
            }
            i = i + 1;
        }
        proof {
            reveal(Seq::filter);
            assert(s0.take(s0.len() as int) =~= s0);
        }
        self.mirrors = kept;
        proof {
            assert(forall|x: int|
                0 <= x < self@.mirrors.len() ==> #[trigger] self@.mirrors[x]
                    == self.mirrors@[x]@);
            assert(self@.mirrors =~= s0.filter(pred));
        }
    }

    /// Serialize the configuration; `decode` reads it back exactly.
    pub fn encode(&self) -> (r: String)
        ensures
            r@ == enc_config(self@.mirrors, self@.storage_location, self@.checksum),
    {
        let mut out = String::new();
        append_str_list(&mut out, &self.mirrors);
        append_field(&mut out, &self.storage_location);
        if self.checksum {
            append_count(&mut out, 1);
        } else {
            append_count(&mut out, 0);
        }
        proof {
            assert(out@ =~= enc_config(self@.mirrors, self@.storage_location, self@.checksum));
        }
        out
    }

    /// Read a configuration back from its serialized form.
    pub fn decode(s: &str) -> (r: Option<Config>)
        ensures
            match r {
                Some(c) => dec_config(s@) == Some(
                    (c@.mirrors, c@.storage_location, c@.checksum),
                ),
                None => dec_config(s@) is None,
            },
    {
        let len = s.unicode_len();
        proof {
            assert(s@.skip(0) =~= s@);
        }
        let (mirrors, i1) = match parse_str_list(s, 0, len) {
            Some(p) => p,
            None => {
                return None;
            },
        };
        let (storage_location, i2) = match parse_field(s, i1, len) {
            Some(p) => p,
            None => {
                return None;
            },
        };
        let (flag, i3) = match parse_count(s, i2, len) {
            Some(p) => p,
            None => {
                proof {
                    let s3 = s@.skip(i2 as int);
                    if dec_num(s3) is Some {
                        assert(dec_num(s3).unwrap().0 > s@.len());
                    }
                }
                return None;
            },
        };
        if i3 != len {
            proof {
                assert(s@.skip(i3 as int).len() > 0);
            }
            return None;
        }
        if flag > 1 {
            return None;
        }
        proof {
            assert(s@.skip(i3 as int).len() == 0);
        }
        let c = Config { mirrors, storage_location, checksum: flag == 1 };
        proof {
            assert(c@.mirrors == c.mirrors@.map_values(|m: String| m@));
        }
        Some(c)
    }
}

} // verus!
