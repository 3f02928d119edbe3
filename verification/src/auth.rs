//! The admin gate: reading a permission list from its stored JSON array
//! text and deciding whether a named user may run admin operations.

use vstd::prelude::*;
use crate::text;
use crate::api::UserResponse;
use crate::measurements::{scan_string, scan_string_exec, lemma_scan_string_shrinks};

verus! {

/// Reads a run of JSON string items up to and including the closing
/// bracket; returns the items and what follows the bracket.
pub open spec fn parse_array_items(s: Seq<char>) -> Option<(Seq<Seq<char>>, Seq<char>)>
    decreases s.len(),
    via parse_array_items_decreases
{
    if s.len() == 0 || s[0] != '"' {
        None
    } else {
        match scan_string(s.drop_first()) {
            None => None,
            Some((item, r1)) => {
                if r1.len() == 0 {
                    None
                } else if r1[0] == ',' {
                    match parse_array_items(r1.drop_first()) {
                        Some((items, r2)) => Some((seq![item] + items, r2)),
                        None => None,
                    }
                } else if r1[0] == ']' {
                    Some((seq![item], r1.drop_first()))
                } else {
                    None
                }
            },
        }
    }
}

#[via_fn]
proof fn parse_array_items_decreases(s: Seq<char>) {
    if s.len() > 0 && s[0] == '"' {
        lemma_scan_string_shrinks(s.drop_first());
    }
}

/// The strings a compact JSON array text holds — the form the store keeps a
/// user's permissions in — or `None` for anything else.
pub open spec fn parse_string_array(s: Seq<char>) -> Option<Seq<Seq<char>>> {
    if s.len() == 0 || s[0] != '[' {
        None
    } else {
        let t = s.drop_first();
        if t.len() > 0 && t[0] == ']' {
            if t.len() == 1 {
                Some(Seq::empty())
            } else {
                None
            }
        } else {
            match parse_array_items(t) {
                Some((items, rest)) => {
                    if rest.len() == 0 {
                        Some(items)
                    } else {
                        None
                    }
                },
                None => None,
            }
        }
    }
}

fn parse_array_items_exec(v: &Vec<char>, start: usize) -> (r: Option<(Vec<String>, usize)>)
    requires
        start <= v@.len(),
    ensures
        (match r {
            Some((items, j)) => start <= j <= v@.len() && parse_array_items(v@.skip(start as int))
                == Some((items@.map(|t: int, s: String| s@), v@.skip(j as int))),
            None => parse_array_items(v@.skip(start as int)) is None,
        }),
    decreases v@.len() - start,
{
    let n = v.len();
    let ghost cur = v@.skip(start as int);
    if start >= n {
        proof {
            assert(cur.len() == 0);
        }
        return None;
    }
    proof {
        assert(cur[0] == v@[start as int]);
    }
    if v[start] != '"' {
        return None;
    }
    proof {
        assert(cur.drop_first() =~= v@.skip(start + 1 as int));
    }
    match scan_string_exec(v, start + 1) {
        None => None,
        Some((item, j1)) => {
            proof {
                lemma_scan_string_shrinks(v@.skip(start + 1 as int));
                assert(v@.skip(j1 as int).len() < v@.skip(start + 1 as int).len());
                assert(j1 > start + 1);
            }
            if j1 >= n {
                proof {
                    assert(v@.skip(j1 as int).len() == 0);
                }
                return None;
            }
            let d = v[j1];
            proof {
                assert(v@.skip(j1 as int)[0] == d);
                assert(v@.skip(j1 as int).drop_first() =~= v@.skip(j1 + 1 as int));
            }
            if d == ',' {
                match parse_array_items_exec(v, j1 + 1) {
                    None => None,
                    Some((mut items, j2)) => {
                        let its = text::chars_to_string(&item);
                        items.insert(0, its);
                        proof {
                            assert(items@.map(|t: int, s: String| s@) =~= seq![item@]
                                + items@.drop_first().map(|t: int, s: String| s@));
                        }
                        Some((items, j2))
                    },
                }
            } else if d == ']' {
                let its = text::chars_to_string(&item);
                let mut items: Vec<String> = Vec::new();
                items.push(its);
                proof {
                    assert(items@.map(|t: int, s: String| s@) =~= seq![item@]);
                }
                Some((items, j1 + 1))
            } else {
                None
            }
        },
    }
}

/// Reads a permission list from its stored JSON array text, per
/// [`parse_string_array`]. The accepted grammar is the compact form the
/// store writes: no whitespace padding between items.
pub fn parse_permissions(s: &str) -> (r: Option<Vec<String>>)
    ensures
        (match r {
            Some(items) => parse_string_array(s@) == Some(items@.map(|t: int, p: String| p@)),
            None => parse_string_array(s@) is None,
        }),
{
    let v = text::str_to_chars(s);
    let n = v.len();
    if n == 0 {
        return None;
    }
    if v[0] != '[' {
        return None;
    }
    let ghost t = v@.drop_first();
    proof {
        assert(t =~= v@.skip(1));
    }
    if n >= 2 && v[1] == ']' {
        proof {
            assert(t[0] == ']');
        }
        if n == 2 {
            let items: Vec<String> = Vec::new();
            proof {
                assert(items@.map(|q: int, p: String| p@) =~= Seq::<Seq<char>>::empty());
            }
            return Some(items);
        }
        return None;
    }
    proof {
        if t.len() > 0 {
            assert(t[0] == v@[1]);
        }
    }
    match parse_array_items_exec(&v, 1) {
        None => None,
        Some((items, j)) => {
            if j == n {
                proof {
                    assert(v@.skip(j as int).len() == 0);
                }
                Some(items)
            } else {
                None
            }
        },
    }
}

/// A permission list grants admin when it holds the `admin` entry.
pub open spec fn grants_admin(ps: Seq<Seq<char>>) -> bool {
    exists|i: int| 0 <= i < ps.len() && ps[i] == "admin"@
}

/// Whether a permission list contains the `admin` entry, per
/// [`grants_admin`].
pub fn is_admin(permissions: &Vec<String>) -> (r: bool)
    ensures
        r == grants_admin(permissions@.map(|t: int, p: String| p@)),
{
    let ghost pv = permissions@.map(|t: int, p: String| p@);
    let n = permissions.len();
    let mut i: usize = 0;
    while i < n
        invariant
            0 <= i <= n == permissions@.len(),
            pv == permissions@.map(|t: int, p: String| p@),
            pv.len() == n,
            forall|t: int| 0 <= t < i ==> (#[trigger] pv[t]) != "admin"@,
        decreases n - i,
    {
        let p = text::str_to_chars(permissions[i].as_str());
        if text::chars_eq_str(&p, "admin") {
            proof {
                assert(pv[i as int] == "admin"@);
            }
            return true;
        }
        i = i + 1;
    }
    proof {
        if grants_admin(pv) {
            let t = choose|t: int| 0 <= t < pv.len() && pv[t] == "admin"@;
        }
    }
    false
}

/// The index of the first user with a given name, or a negative value.
pub open spec fn find_user(us: Seq<UserResponse>, name: Seq<char>) -> int
    decreases us.len(),
{
    if us.len() == 0 {
        -1
    } else if us[0].username@ == name {
        0
    } else {
        let r = find_user(us.drop_first(), name);
        if r < 0 {
            -1
        } else {
            r + 1
        }
    }
}

proof fn lemma_find_user(us: Seq<UserResponse>, name: Seq<char>)
    ensures
        find_user(us, name) < 0 ==> forall|i: int|
            0 <= i < us.len() ==> (#[trigger] us[i]).username@ != name,
        find_user(us, name) >= 0 ==> 0 <= find_user(us, name) < us.len() && us[find_user(
            us,
            name,
        )].username@ == name && forall|i: int|
            0 <= i < find_user(us, name) ==> (#[trigger] us[i]).username@ != name,
    decreases us.len(),
{
    if us.len() > 0 && us[0].username@ != name {
        let t = us.drop_first();
        lemma_find_user(t, name);
        let r = find_user(t, name);
        if r < 0 {
            assert forall|i: int| 0 <= i < us.len() implies (#[trigger] us[i]).username@
                != name by {
                if i >= 1 {
                    assert(t[i - 1].username@ != name);
                }
            }
        } else {
            assert forall|i: int| 0 <= i < r + 1 implies (#[trigger] us[i]).username@ != name by {
                if i >= 1 {
                    assert(t[i - 1].username@ != name);
                }
            }
        }
    }
}

/// What the admin gate decides for a user: whether the first user of that
/// name holds the `admin` permission; unreadable permission text grants
/// nothing.
pub open spec fn admin_decision(us: Seq<UserResponse>, name: Seq<char>) -> Option<bool> {
    let i = find_user(us, name);
    if i < 0 {
        None
    } else {
        Some(
            match parse_string_array(us[i].permissions@) {
                Some(ps) => grants_admin(ps),
                None => false,
            },
        )
    }
}

/// The admin gate of the command surface: resolves the caller's username
/// and checks the `admin` permission, per [`admin_decision`]. An unknown
/// username is an error; an admin operation proceeds only on `Ok(true)`,
/// everything else is refused as unauthorized.
pub fn check_admin_permission(users: &Vec<UserResponse>, username: &str) -> (r: Result<
    bool,
    String,
>)
    ensures
        (match r {
            Ok(b) => admin_decision(users@, username@) == Some(b),
            Err(_) => admin_decision(users@, username@) is None,
        }),
{
    let ghost uv = users@;
    let n = users.len();
    let mut i: usize = 0;
    while i < n
        invariant
            0 <= i <= n == users@.len(),
            uv == users@,
            forall|t: int| 0 <= t < i ==> (#[trigger] uv[t]).username@ != username@,
        decreases n - i,
    {
        let un = text::str_to_chars(users[i].username.as_str());
        if text::chars_eq_str(&un, username) {
            proof {
                assert(uv[i as int].username@ == username@);
                lemma_find_user_at(uv, username@, i as int);
            }
            let b = match parse_permissions(users[i].permissions.as_str()) {
                Some(ps) => is_admin(&ps),
                None => false,
            };
            return Ok(b);
        }
        i = i + 1;
    }
    proof {
        lemma_find_user(uv, username@);
        if find_user(uv, username@) >= 0 {
            assert(uv[find_user(uv, username@)].username@ == username@);
        }
    }
    Err(String::from_str("User not found"))
}

proof fn lemma_find_user_at(us: Seq<UserResponse>, name: Seq<char>, i: int)
    requires
        0 <= i < us.len(),
        us[i].username@ == name,
        forall|t: int| 0 <= t < i ==> (#[trigger] us[t]).username@ != name,
    ensures
        find_user(us, name) == i,
    decreases i,
{
    if i > 0 {
        lemma_find_user_at(us.drop_first(), name, i - 1);
    }
}

} // verus!
