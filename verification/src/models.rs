//! The data model: gazetteer records, the per-request suggestion values
//! built from them, and the error payload.
//!
//! Matching never looks at coordinates, so records carry none; a caller
//! that owns per-record data such as coordinates keeps it beside the
//! record store and joins it back through `Suggestion::index`.

use vstd::prelude::*;
use vstd::string::StringExecFns;
use crate::score::Score;
use crate::text::lower_of;
use crate::text::lowercase;

verus! {

/// No match target may be longer than this many bytes: two of them must
/// add up without overflowing a machine word when a similarity divisor is
/// formed.  No real allocation reaches half the address space, so the cap
/// never bites.
pub const NAME_LIMIT: usize = usize::MAX / 2;

/// One immutable gazetteer entry.
///
/// `name_lower` is the Unicode-lowercased display name; `name_ascii_lower`
/// the lowercased ASCII variant supplied by the data source (or of the
/// display name where the source gives none), the fallback target for
/// users typing unaccented input.
pub struct LocationRecord {
    pub name: String,
    pub name_lower: String,
    pub name_ascii_lower: String,
    pub country: String,
    pub stateprov: String,
    pub population: u64,
}

/// The fixed numeric-to-letter table for province codes: codes "01" to
/// "14" except "06" are mapped, every other code passes through unchanged
/// (state codes are already letters).
pub open spec fn admin1_norm(code: Seq<char>) -> Seq<char> {
    if code == seq!['0', '1'] {
        seq!['A', 'B']
    } else if code == seq!['0', '2'] {
        seq!['B', 'C']
    } else if code == seq!['0', '3'] {
        seq!['M', 'B']
    } else if code == seq!['0', '4'] {
        seq!['N', 'B']
    } else if code == seq!['0', '5'] {
        seq!['N', 'L']
    } else if code == seq!['0', '7'] {
        seq!['N', 'S']
    } else if code == seq!['0', '8'] {
        seq!['O', 'N']
    } else if code == seq!['0', '9'] {
        seq!['P', 'E']
    } else if code == seq!['1', '0'] {
        seq!['Q', 'C']
    } else if code == seq!['1', '1'] {
        seq!['S', 'K']
    } else if code == seq!['1', '2'] {
        seq!['Y', 'K']
    } else if code == seq!['1', '3'] {
        seq!['N', 'T']
    } else if code == seq!['1', '4'] {
        seq!['N', 'U']
    } else {
        code
    }
}

impl LocationRecord {
    /// Well-formed for scoring and indexing: both match targets fit the
    /// machine and the lowercased name is free of the sentinel byte that
    /// separates names in the substring-index corpus.
    pub open spec fn wf(self) -> bool {
        &&& crate::text::bytes_of(self.name_lower@).len() <= NAME_LIMIT
        &&& crate::text::bytes_of(self.name_ascii_lower@).len() <= NAME_LIMIT
        &&& !crate::text::bytes_of(self.name_lower@).contains(0u8)
    }

    /// Builds a normalized record: both match targets are lowercased, the
    /// ASCII variant falls back to the display name where the source gives
    /// none, and the admin1 code is normalized through the fixed table.
    pub fn new(
        name: String,
        ascii_name: String,
        country: String,
        admin1: String,
        population: u64,
    ) -> (r: LocationRecord)
        ensures
            r.name == name,
            r.country == country,
            r.population == population,
            r.name_lower@ == lower_of(name@),
            r.name_ascii_lower@ == lower_of(
                if ascii_name@.len() == 0 {
                    name@
                } else {
                    ascii_name@
                },
            ),
            r.stateprov@ == admin1_norm(admin1@),
    {
        let name_lower = lowercase(name.as_str());
        let name_ascii_lower = if ascii_name.as_str().is_empty() {
            lowercase(name.as_str())
        } else {
            lowercase(ascii_name.as_str())
        };
        let stateprov = normalize_admin1(admin1.as_str());
        LocationRecord { name, name_lower, name_ascii_lower, country, stateprov, population }
    }
}

/// Applies the fixed province-code table; see `admin1_norm`.
pub fn normalize_admin1(code: &str) -> (r: String)
    ensures
        r@ == admin1_norm(code@),
{
    let n = code.unicode_len();
    if n == 2 {
        let c0 = code.get_char(0);
        let c1 = code.get_char(1);
        proof {
            assert(code@ =~= seq![code@[0], code@[1]]);
        }
        if c0 == '0' && c1 == '1' {
            let r = String::from_str("AB");
            proof {
                reveal_strlit("AB");
                assert(r@ =~= seq!['A', 'B']);
            }
            return r;
        }
        if c0 == '0' && c1 == '2' {
            let r = String::from_str("BC");
            proof {
                reveal_strlit("BC");
                assert(r@ =~= seq!['B', 'C']);
            }
            return r;
        }
        if c0 == '0' && c1 == '3' {
            let r = String::from_str("MB");
            proof {
                reveal_strlit("MB");
                assert(r@ =~= seq!['M', 'B']);
            }
            return r;
        }
        if c0 == '0' && c1 == '4' {
            let r = String::from_str("NB");
            proof {
                reveal_strlit("NB");
                assert(r@ =~= seq!['N', 'B']);
            }
            return r;
        }
        if c0 == '0' && c1 == '5' {
            let r = String::from_str("NL");
            proof {
                reveal_strlit("NL");
                assert(r@ =~= seq!['N', 'L']);
            }
            return r;
        }
        if c0 == '0' && c1 == '7' {
            let r = String::from_str("NS");
            proof {
                reveal_strlit("NS");
                assert(r@ =~= seq!['N', 'S']);
            }
            return r;
        }
        if c0 == '0' && c1 == '8' {
            let r = String::from_str("ON");
            proof {
                reveal_strlit("ON");
                assert(r@ =~= seq!['O', 'N']);
            }
            return r;
        }
        if c0 == '0' && c1 == '9' {
            let r = String::from_str("PE");
            proof {
                reveal_strlit("PE");
                assert(r@ =~= seq!['P', 'E']);
            }
            return r;
        }
        if c0 == '1' && c1 == '0' {
            let r = String::from_str("QC");
            proof {
                reveal_strlit("QC");
                assert(r@ =~= seq!['Q', 'C']);
            }
            return r;
        }
        if c0 == '1' && c1 == '1' {
            let r = String::from_str("SK");
            proof {
                reveal_strlit("SK");
                assert(r@ =~= seq!['S', 'K']);
            }
            return r;
        }
        if c0 == '1' && c1 == '2' {
            let r = String::from_str("YK");
            proof {
                reveal_strlit("YK");
                assert(r@ =~= seq!['Y', 'K']);
            }
            return r;
        }
        if c0 == '1' && c1 == '3' {
            let r = String::from_str("NT");
            proof {
                reveal_strlit("NT");
                assert(r@ =~= seq!['N', 'T']);
            }
            return r;
        }
        if c0 == '1' && c1 == '4' {
            let r = String::from_str("NU");
            proof {
                reveal_strlit("NU");
                assert(r@ =~= seq!['N', 'U']);
            }
            return r;
        }
    }
    String::from_str(code)
}

/// One ranked answer.  `name` is the record's display name followed by
/// its country code; `index` is the record's position in the store, for
/// callers that keep per-record data of their own beside it.
pub struct Suggestion {
    pub name: String,
    pub population: u64,
    pub score: Score,
    pub index: usize,
}

impl Suggestion {
    pub fn new(record: &LocationRecord, score: Score, index: usize) -> (s: Suggestion)
        ensures
            s.name@ == record.name@ + ", "@ + record.country@,
            s.population == record.population,
            s.score == score,
            s.index == index,
    {
        let mut name = record.name.clone();
        name.append(", ");
        name.append(record.country.as_str());
        Suggestion { name, population: record.population, score, index }
    }
}

/// The full reply to one query.
pub struct Suggestions {
    pub suggestions: Vec<Suggestion>,
}

/// A structured error payload.
pub struct Error {
    pub err: String,
}

} // verus!
