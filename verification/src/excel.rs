//! Report-side helpers: whitespace-insensitive measurement lookup and the
//! per-serial validity rule for manual results.

use vstd::prelude::*;
use crate::text;
use crate::text::norm_spaces;
use crate::model::ManualResultRow;

verus! {

/// Collapses whitespace runs to single spaces and trims the ends, the
/// normalisation applied to measurement keys before comparison.
pub fn normalize_spaces(s: &str) -> (r: String)
    ensures
        r@ == norm_spaces(s@),
{
    let v = text::str_to_chars(s);
    let n = text::normalize_spaces_chars(&v);
    text::chars_to_string(&n)
}

/// A pass/fail cell counts as passing when it reads `pass` in any ASCII
/// case.
pub open spec fn is_pass_text(s: Seq<char>) -> bool {
    s.len() == 4 && (s[0] == 'p' || s[0] == 'P') && (s[1] == 'a' || s[1] == 'A') && (s[2] == 's'
        || s[2] == 'S') && (s[3] == 's' || s[3] == 'S')
}

/// Whether a cell reads `pass` ignoring ASCII case, per [`is_pass_text`].
pub fn is_pass_cell(s: &str) -> (r: bool)
    ensures
        r == is_pass_text(s@),
{
    let v = text::str_to_chars(s);
    if v.len() != 4 {
        return false;
    }
    (v[0] == 'p' || v[0] == 'P') && (v[1] == 'a' || v[1] == 'A') && (v[2] == 's' || v[2] == 'S')
        && (v[3] == 's' || v[3] == 'S')
}

/// One manual suffix group: the test-name suffix and its result rows.
pub struct ManualGroup {
    pub suffix: String,
    pub rows: Vec<ManualResultRow>,
}

/// The group for `suffix`, if any.
pub open spec fn group_of(groups: Seq<ManualGroup>, suffix: Seq<char>) -> Option<int> {
    if exists|i: int| 0 <= i < groups.len() && (#[trigger] groups[i]).suffix@ == suffix {
        Some(choose|i: int| 0 <= i < groups.len() && (#[trigger] groups[i]).suffix@ == suffix)
    } else {
        None
    }
}

/// A suffix is covered when some row of its group passes.
pub open spec fn suffix_passes(groups: Seq<ManualGroup>, suffix: Seq<char>) -> bool {
    match group_of(groups, suffix) {
        None => false,
        Some(g) => exists|r: int|
            0 <= r < groups[g].rows@.len() && is_pass_text(
                (#[trigger] groups[g].rows@[r])@.passfail,
            ),
    }
}

/// Checks that every expected manual test suffix has at least one passing
/// entry in its group — the manual half of a serial's validity.
pub fn manual_map_all_pass(groups: &Vec<ManualGroup>, expected: &Vec<String>) -> (r: bool)
    requires
        forall|i: int, j: int|
            0 <= i < j < groups@.len() ==> (#[trigger] groups@[i]).suffix@ != (
            #[trigger] groups@[j]).suffix@,
    ensures
        r == forall|e: int|
            0 <= e < expected@.len() ==> suffix_passes(groups@, (#[trigger] expected@[e])@),
{
    let ne = expected.len();
    let mut e: usize = 0;
    while e < ne
        invariant
            0 <= e <= ne == expected@.len(),
            forall|i: int, j: int|
                0 <= i < j < groups@.len() ==> (#[trigger] groups@[i]).suffix@ != (
                #[trigger] groups@[j]).suffix@,
            forall|t: int| 0 <= t < e ==> suffix_passes(groups@, (#[trigger] expected@[t])@),
        decreases ne - e,
    {
        let suffix = &expected[e];
        let ng = groups.len();
        let mut g: usize = 0;
        let mut gi: Option<usize> = None;
        while g < ng
            invariant
                0 <= g <= ng == groups@.len(),
                (match gi {
                    Some(x) => x < ng && (groups@[x as int]).suffix@ == suffix@,
                    None => forall|t: int|
                        0 <= t < g ==> (#[trigger] groups@[t]).suffix@ != suffix@,
                }),
            ensures
                (match gi {
                    Some(x) => x < ng && (groups@[x as int]).suffix@ == suffix@,
                    None => forall|t: int|
                        0 <= t < ng ==> (#[trigger] groups@[t]).suffix@ != suffix@,
                }),
            decreases ng - g, (match gi {
                Some(_) => 0int,
                None => 1int,
            }),
        {
            match gi {
                Some(_) => {
                    break ;
                },
                None => {},
            }
            if groups[g].suffix == *suffix {
                gi = Some(g);
            } else {
                g = g + 1;
            }
        }
        match gi {
            None => {
                proof {
                    if group_of(groups@, suffix@) is Some {
                        let x = choose|i: int|
                            0 <= i < groups@.len() && (#[trigger] groups@[i]).suffix@ == suffix@;
                    }
                    assert(!suffix_passes(groups@, suffix@));
                }
                return false;
            },
            Some(x) => {
                let grp = &groups[x];
                let nr = grp.rows.len();
                let mut rfound = false;
                let mut ri: usize = 0;
                while ri < nr
                    invariant
                        0 <= ri <= nr == grp.rows@.len(),
                        grp == groups@[x as int],
                        rfound ==> exists|r: int|
                            0 <= r < grp.rows@.len() && is_pass_text(
                                (#[trigger] grp.rows@[r])@.passfail,
                            ),
                        !rfound ==> forall|r: int|
                            0 <= r < ri ==> !is_pass_text((#[trigger] grp.rows@[r])@.passfail),
                    ensures
                        rfound == exists|r: int|
                            0 <= r < grp.rows@.len() && is_pass_text(
                                (#[trigger] grp.rows@[r])@.passfail,
                            ),
                    decreases nr - ri, (if rfound { 0int } else { 1int }),
                {
                    if rfound {
                        break ;
                    }
                    if is_pass_cell(grp.rows[ri].passfail.as_str()) {
                        rfound = true;
                    } else {
                        ri = ri + 1;
                    }
                }
                if !rfound {
                    proof {
                        let gg = group_of(groups@, suffix@);
                        assert(gg is Some) by {
                            assert((groups@[x as int]).suffix@ == suffix@);
                        }
                        let gx = gg->0;
                        assert((groups@[gx]).suffix@ == suffix@);
                        if gx != x {
                            if gx < x {
                                assert((groups@[gx]).suffix@ != (groups@[x as int]).suffix@);
                            } else {
                                assert((groups@[x as int]).suffix@ != (groups@[gx]).suffix@);
                            }
                        }
                        assert(!suffix_passes(groups@, suffix@));
                    }
                    return false;
                }
                proof {
                    let gg = group_of(groups@, suffix@);
                    assert(gg is Some) by {
                        assert((groups@[x as int]).suffix@ == suffix@);
                    }
                    let gx = gg->0;
                    assert((groups@[gx]).suffix@ == suffix@);
                    if gx != x {
                        if gx < x {
                            assert((groups@[gx]).suffix@ != (groups@[x as int]).suffix@);
                        } else {
                            assert((groups@[x as int]).suffix@ != (groups@[gx]).suffix@);
                        }
                    }
                    assert(suffix_passes(groups@, suffix@));
                }
            },
        }
        e = e + 1;
    }
    true
}

} // verus!
