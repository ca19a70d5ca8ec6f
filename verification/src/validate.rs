//! Checks on the text fields of requests: blank fields, e-mail addresses,
//! database names.

use vstd::prelude::*;

verus! {

/// Unicode `White_Space`: what `str::trim` strips and what `\s` matches.
pub open spec fn is_ws(c: char) -> bool {
    ('\u{9}' <= c && c <= '\u{d}') || c == ' ' || c == '\u{85}' || c == '\u{a0}' || c == '\u{1680}' || ('\u{2000}' <= c
        && c <= '\u{200a}') || c == '\u{2028}' || c == '\u{2029}' || c == '\u{202f}' || c == '\u{205f}' || c
        == '\u{3000}'
}

/// Whether `c` is Unicode white space.
pub fn is_ws_char(c: char) -> (b: bool)
    ensures
        b == is_ws(c),
{
    ('\u{9}' <= c && c <= '\u{d}') || c == ' ' || c == '\u{85}' || c == '\u{a0}' || c == '\u{1680}' || ('\u{2000}' <= c
        && c <= '\u{200a}') || c == '\u{2028}' || c == '\u{2029}' || c == '\u{202f}' || c == '\u{205f}' || c
        == '\u{3000}'
}

/// The text holds something other than white space.
pub open spec fn has_content(s: Seq<char>) -> bool {
    exists|i: int| 0 <= i < s.len() && !is_ws(#[trigger] s[i])
}

/// A field is valid when it is not empty once surrounding white space is
/// trimmed.
pub fn validate_empty_string(field: &str) -> (b: bool)
    ensures
        b == has_content(field@),
{
    let n = field.unicode_len();
    let mut i: usize = 0;
    while i < n
        invariant
            n == field@.len(),
            i <= n,
            forall|j: int| 0 <= j < i ==> is_ws(#[trigger] field@[j]),
        decreases n - i,
    {
        let c = field.get_char(i);
        if !is_ws_char(c) {
            return true;
        }
        i = i + 1;
    }
    false
}

/// `s[lo..hi]` is non-empty and holds neither white space nor `@`.
pub open spec fn plain_run(s: Seq<char>, lo: int, hi: int) -> bool {
    &&& 0 <= lo < hi <= s.len()
    &&& forall|i: int| lo <= i < hi ==> !is_ws(#[trigger] s[i]) && s[i] != '@'
}

/// The shape of an e-mail address: `local@domain.tld`, each of the three
/// parts non-empty and free of white space and `@` (the domain part may
/// hold dots).
pub open spec fn is_email(s: Seq<char>) -> bool {
    exists|at: int, dot: int|
        plain_run(s, 0, at) && #[trigger] s[at] == '@' && plain_run(s, at + 1, dot) && #[trigger] s[dot] == '.' && plain_run(
            s,
            dot + 1,
            s.len() as int,
        )
}

/// Accepts an empty address or a well-formed one; anything else is
/// refused with `Invalid email format`.
pub fn email_validate(email: &String) -> (r: Result<(), String>)
    ensures
        r is Ok <==> (email@.len() == 0 || is_email(email@)),
        r matches Err(m) ==> m@ == "Invalid email format"@,
{
    let n = email.as_str().unicode_len();
    if n == 0 {
        return Ok(());
    }
    // Find the single '@' and check that no character is white space.
    let mut at: Option<usize> = None;
    let mut ats: usize = 0;
    let mut i: usize = 0;
    let mut clean = true;
    while i < n
        invariant
            n == email@.len(),
            i <= n,
            ats <= i,
            clean <==> forall|j: int| 0 <= j < i ==> !is_ws(#[trigger] email@[j]),
            ats == 0 <==> at is None,
            at matches Some(a) ==> a < i && email@[a as int] == '@' && forall|j: int| 0 <= j < a ==> #[trigger] email@[j] != '@',
            ats <= 1 ==> forall|j: int| 0 <= j < i && #[trigger] email@[j] == '@' ==> at == Some(j as usize),
            ats >= 2 ==> exists|j: int, k: int| 0 <= j < k < i && #[trigger] email@[j] == '@' && #[trigger] email@[k] == '@',
        decreases n - i,
    {
        let c = email.as_str().get_char(i);
        if is_ws_char(c) {
            clean = false;
        }
        if c == '@' {
            if ats == 0 {
                at = Some(i);
            } else if ats == 1 {
                proof {
                    let a = at->0;
                    assert(email@[a as int] == '@' && email@[i as int] == '@');
                }
            }
            if ats < 2 {
                ats = ats + 1;
            }
        }
        i = i + 1;
    }
    let bad = String::from_str("Invalid email format");
    if !clean || ats != 1 {
        proof {
            if is_email(email@) {
                let (a, d) = choose|a: int, d: int|
                    plain_run(email@, 0, a) && #[trigger] email@[a] == '@' && plain_run(email@, a + 1, d) && #[trigger] email@[d] == '.'
                        && plain_run(email@, d + 1, email@.len() as int);
                assert forall|j: int| 0 <= j < n implies !is_ws(#[trigger] email@[j]) by {
                    if j < a {
                    } else if j == a {
                    } else if j < d {
                    } else if j == d {
                    } else {
                    }
                }
                if ats >= 2 {
                    let (j, k) = choose|j: int, k: int|
                        0 <= j < k < n && #[trigger] email@[j] == '@' && #[trigger] email@[k] == '@';
                    assert(j == a || k == a);
                } else {
                    assert(email@[a] == '@');
                }
            }
        }
        return Err(bad);
    }
    let a = at.unwrap();
    proof {
        assert forall|j: int| 0 <= j < n && #[trigger] email@[j] == '@' implies j == a by {}
    }
    // After the '@': a '.' with at least one character on each side.
    if a == 0 {
        proof {
            if is_email(email@) {
                let (a2, d) = choose|a2: int, d: int|
                    plain_run(email@, 0, a2) && #[trigger] email@[a2] == '@' && plain_run(email@, a2 + 1, d) && #[trigger] email@[d] == '.'
                        && plain_run(email@, d + 1, email@.len() as int);
                assert(a2 == 0);
            }
        }
        return Err(bad);
    }
    let mut k: usize = a + 1;
    while k < n && k + 1 < n
        invariant
            n == email@.len(),
            k <= n,
            a < n,
            a > 0,
            a + 1 <= k,
            email@[a as int] == '@',
            forall|j: int| 0 <= j < n ==> !is_ws(#[trigger] email@[j]),
            forall|j: int| 0 <= j < n && #[trigger] email@[j] == '@' ==> j == a,
            forall|j: int| a + 2 <= j < k ==> #[trigger] email@[j] != '.',
        decreases n - k,
    {
        if k > a + 1 && email.as_str().get_char(k) == '.' {
            proof {
                assert(plain_run(email@, 0, a as int));
                assert(plain_run(email@, a + 1, k as int));
                assert(plain_run(email@, k + 1, n as int));
                assert(email@[k as int] == '.');
            }
            return Ok(());
        }
        k = k + 1;
    }
    proof {
        if is_email(email@) {
            let (a2, d) = choose|a2: int, d: int|
                plain_run(email@, 0, a2) && #[trigger] email@[a2] == '@' && plain_run(email@, a2 + 1, d) && #[trigger] email@[d] == '.'
                    && plain_run(email@, d + 1, email@.len() as int);
            assert(a2 == a);
            assert(email@[d] == '.');
        }
    }
    Err(bad)
}

/// A database name may not hold `/`, `\` or `.`.
pub open spec fn is_database_name(s: Seq<char>) -> bool {
    forall|i: int| 0 <= i < s.len() ==> #[trigger] s[i] != '/' && s[i] != '\\' && s[i] != '.'
}

/// Whether `name` can name a database: no `/`, `\` or `.` in it.
pub fn valid_database_name(name: &str) -> (b: bool)
    ensures
        b == is_database_name(name@),
{
    let n = name.unicode_len();
    let mut i: usize = 0;
    while i < n
        invariant
            n == name@.len(),
            i <= n,
            forall|j: int| 0 <= j < i ==> #[trigger] name@[j] != '/' && name@[j] != '\\' && name@[j] != '.',
        decreases n - i,
    {
        let c = name.get_char(i);
        if c == '/' || c == '\\' || c == '.' {
            return false;
        }
        i = i + 1;
    }
    true
}

/// A separator `_#` starts at `i`.
pub open spec fn is_sep_at(s: Seq<char>, i: int) -> bool {
    0 <= i && i + 1 < s.len() && s[i] == '_' && s[i + 1] == '#'
}

/// The separators of `s` start exactly at `p0 < p1 < p2`.
pub open spec fn three_seps(s: Seq<char>, p0: int, p1: int, p2: int) -> bool {
    &&& p0 < p1 < p2
    &&& is_sep_at(s, p0) && is_sep_at(s, p1) && is_sep_at(s, p2)
    &&& forall|i: int| #[trigger] is_sep_at(s, i) ==> i == p0 || i == p1 || i == p2
}

/// `s` without one leading `#`.
pub open spec fn strip_hash(s: Seq<char>) -> Seq<char> {
    if s.len() > 0 && s[0] == '#' {
        s.skip(1)
    } else {
        s
    }
}

/// A directory name `#name_#id_#dimensions_#timestamp` split at its `_#`
/// separators: `Some` exactly when there are four parts, the first
/// without its leading `#`.
pub open spec fn database_name_parts(s: Seq<char>) -> Option<(Seq<char>, Seq<char>, Seq<char>, Seq<char>)> {
    if exists|p0: int, p1: int, p2: int| three_seps(s, p0, p1, p2) {
        let (p0, p1, p2) = choose|p0: int, p1: int, p2: int| three_seps(s, p0, p1, p2);
        Some(
            (
                strip_hash(s.subrange(0, p0)),
                s.subrange(p0 + 2, p1),
                s.subrange(p1 + 2, p2),
                s.subrange(p2 + 2, s.len() as int),
            ),
        )
    } else {
        None
    }
}

/// Three separator positions are determined by the text.
proof fn lemma_three_seps_unique(s: Seq<char>, p0: int, p1: int, p2: int, q0: int, q1: int, q2: int)
    requires
        three_seps(s, p0, p1, p2),
        three_seps(s, q0, q1, q2),
    ensures
        p0 == q0 && p1 == q1 && p2 == q2,
{
    assert(is_sep_at(s, q0) && is_sep_at(s, q1) && is_sep_at(s, q2));
    assert(is_sep_at(s, p0) && is_sep_at(s, p1) && is_sep_at(s, p2));
}

/// Splits a directory name `#name_#id_#dimensions_#timestamp` into
/// `(name, id, dimensions, timestamp)`; `None` unless it has exactly four
/// `_#`-separated parts.
pub fn parse_database_name(file_name: &str) -> (r: Option<(String, String, String, String)>)
    ensures
        match database_name_parts(file_name@) {
            Some((a, b, c, d)) => r matches Some((x, y, z, w)) && x@ == a && y@ == b && z@ == c && w@ == d,
            None => r is None,
        },
{
    let n = file_name.unicode_len();
    let mut seps: Vec<usize> = Vec::new();
    let mut i: usize = 0;
    while i < n && i + 1 < n
        invariant
            n == file_name@.len(),
            i <= n,
            forall|k: int| 0 <= k < seps@.len() ==> is_sep_at(file_name@, #[trigger] seps@[k] as int) && seps@[k] < i,
            forall|k: int, l: int| 0 <= k < l < seps@.len() ==> #[trigger] seps@[k] < #[trigger] seps@[l],
            forall|j: int| 0 <= j < i && #[trigger] is_sep_at(file_name@, j) ==> exists|k: int| 0 <= k < seps@.len() && seps@[k] == j,
            seps@.len() <= i,
        decreases n - i,
    {
        if file_name.get_char(i) == '_' && file_name.get_char(i + 1) == '#' {
            let ghost before = seps@;
            seps.push(i);
            proof {
                assert forall|j: int| 0 <= j < i + 1 && #[trigger] is_sep_at(file_name@, j) implies exists|k: int|
                    0 <= k < seps@.len() && seps@[k] == j by {
                    if j < i {
                        let k = choose|k: int| 0 <= k < before.len() && before[k] == j;
                        assert(seps@[k] == j);
                    } else {
                        assert(seps@[before.len() as int] == j);
                    }
                }
            }
        }
        i = i + 1;
    }
    proof {
        assert forall|j: int| #[trigger] is_sep_at(file_name@, j) implies exists|k: int| 0 <= k < seps@.len() && seps@[k] == j by {
            assert(j < i);
        }
    }
    if seps.len() != 3 {
        proof {
            if exists|p0: int, p1: int, p2: int| three_seps(file_name@, p0, p1, p2) {
                let (p0, p1, p2) = choose|p0: int, p1: int, p2: int| three_seps(file_name@, p0, p1, p2);
                let k0 = choose|k: int| 0 <= k < seps@.len() && seps@[k] == p0;
                let k1 = choose|k: int| 0 <= k < seps@.len() && seps@[k] == p1;
                let k2 = choose|k: int| 0 <= k < seps@.len() && seps@[k] == p2;
                if k1 <= k0 {
                    if k1 < k0 {
                        assert(seps@[k1] < seps@[k0]);
                    }
                }
                if k2 <= k1 {
                    if k2 < k1 {
                        assert(seps@[k2] < seps@[k1]);
                    }
                }
                assert(seps@.len() >= 3);
                let s0 = seps@[0] as int;
                let s1 = seps@[1] as int;
                let s2 = seps@[2] as int;
                let s3 = seps@[3] as int;
                assert(is_sep_at(file_name@, s0) && is_sep_at(file_name@, s1) && is_sep_at(file_name@, s2) && is_sep_at(file_name@, s3));
                assert(seps@[0] < seps@[1] && seps@[1] < seps@[2] && seps@[2] < seps@[3]);
            }
        }
        return None;
    }
    let p0 = seps[0];
    let p1 = seps[1];
    let p2 = seps[2];
    proof {
        assert(three_seps(file_name@, p0 as int, p1 as int, p2 as int)) by {
            assert forall|j: int| #[trigger] is_sep_at(file_name@, j) implies j == p0 || j == p1 || j == p2 by {
                let k = choose|k: int| 0 <= k < seps@.len() && seps@[k] == j;
            }
        }
        let (q0, q1, q2) = choose|q0: int, q1: int, q2: int| three_seps(file_name@, q0, q1, q2);
        lemma_three_seps_unique(file_name@, p0 as int, p1 as int, p2 as int, q0, q1, q2);
        assert(file_name@[p0 as int + 1] == '#' && file_name@[p1 as int] == '_');
    }
    let first = file_name.substring_char(0, p0);
    let name = if p0 > 0 && first.get_char(0) == '#' {
        proof {
            assert(first@.skip(1) == first@.subrange(1, p0 as int));
        }
        first.substring_char(1, p0).to_owned()
    } else {
        first.to_owned()
    };
    let id = file_name.substring_char(p0 + 2, p1).to_owned();
    let dims = file_name.substring_char(p1 + 2, p2).to_owned();
    let ts = file_name.substring_char(p2 + 2, n).to_owned();
    Some((name, id, dims, ts))
}

/// No `_#` separator occurs in `s`.
pub open spec fn sep_free(s: Seq<char>) -> bool {
    forall|i: int| !#[trigger] is_sep_at(s, i)
}

/// The directory name `#name_#id_#dimensions_#timestamp`.
pub open spec fn database_dir_name(name: Seq<char>, id: Seq<char>, dims: Seq<char>, ts: Seq<char>) -> Seq<char> {
    seq!['#'] + name + seq!['_', '#'] + id + seq!['_', '#'] + dims + seq!['_', '#'] + ts
}

/// A separator inside one part of a concatenation is a separator of the
/// part.
proof fn lemma_sep_inside(x: Seq<char>, part: Seq<char>, off: int, i: int)
    requires
        off >= 0,
        off + part.len() <= x.len(),
        forall|j: int| 0 <= j < part.len() ==> #[trigger] x[off + j] == part[j],
        off <= i,
        i + 1 < off + part.len(),
        is_sep_at(x, i),
    ensures
        is_sep_at(part, i - off),
{
    assert(x[off + (i - off)] == part[i - off]);
    assert(x[off + (i - off + 1)] == part[i - off + 1]);
}

/// Splitting a directory name written as `#name_#id_#dimensions_#timestamp`
/// gives back its four parts, when none of them holds `_#`: by its contract,
/// `parse_database_name` of that text returns `Some` of those parts.
pub proof fn law_database_name_round_trip(name: Seq<char>, id: Seq<char>, dims: Seq<char>, ts: Seq<char>)
    requires
        sep_free(name),
        sep_free(id),
        sep_free(dims),
        sep_free(ts),
    ensures
        database_name_parts(database_dir_name(name, id, dims, ts)) == Some((name, id, dims, ts)),
{
    let s = database_dir_name(name, id, dims, ts);
    let p0: int = 1 + name.len() as int;
    let p1: int = p0 + 2 + id.len();
    let p2: int = p1 + 2 + dims.len();
    let n: int = p2 + 2 + ts.len();
    assert(s.len() == n);
    assert(s[0] == '#');
    assert forall|j: int| 0 <= j < name.len() implies #[trigger] s[1 + j] == name[j] by {}
    assert(s[p0] == '_' && s[p0 + 1] == '#');
    assert forall|j: int| 0 <= j < id.len() implies #[trigger] s[(p0 + 2) + j] == id[j] by {}
    assert(s[p1] == '_' && s[p1 + 1] == '#');
    assert forall|j: int| 0 <= j < dims.len() implies #[trigger] s[(p1 + 2) + j] == dims[j] by {}
    assert(s[p2] == '_' && s[p2 + 1] == '#');
    assert forall|j: int| 0 <= j < ts.len() implies #[trigger] s[(p2 + 2) + j] == ts[j] by {}
    assert(three_seps(s, p0, p1, p2)) by {
        assert forall|i: int| #[trigger] is_sep_at(s, i) implies i == p0 || i == p1 || i == p2 by {
            if i == 0 {
            } else if i < p0 - 1 {
                lemma_sep_inside(s, name, 1, i);
                assert(!is_sep_at(name, i - 1));
            } else if i == p0 - 1 {
            } else if i == p0 + 1 {
            } else if p0 + 1 < i < p1 - 1 {
                lemma_sep_inside(s, id, p0 + 2, i);
                assert(!is_sep_at(id, i - (p0 + 2)));
            } else if i == p1 - 1 && i > p0 + 1 {
            } else if i == p1 + 1 {
            } else if p1 + 1 < i < p2 - 1 {
                lemma_sep_inside(s, dims, p1 + 2, i);
                assert(!is_sep_at(dims, i - (p1 + 2)));
            } else if i == p2 - 1 && i > p1 + 1 {
            } else if i == p2 + 1 {
            } else if p2 + 1 < i {
                lemma_sep_inside(s, ts, p2 + 2, i);
                assert(!is_sep_at(ts, i - (p2 + 2)));
            }
        }
    }
    let (q0, q1, q2) = choose|q0: int, q1: int, q2: int| three_seps(s, q0, q1, q2);
    lemma_three_seps_unique(s, p0, p1, p2, q0, q1, q2);
    assert(s.subrange(0, p0).skip(1) =~= name);
    assert(s.subrange(p0 + 2, p1) =~= id);
    assert(s.subrange(p1 + 2, p2) =~= dims);
    assert(s.subrange(p2 + 2, n) =~= ts);
}

} // verus!
