//! Cutting text into chunks of words, and chunks into batches.

use vstd::prelude::*;
use crate::validate::{is_ws, is_ws_char, has_content};

verus! {

/// `parts` laid end to end.
pub open spec fn flatten<T>(parts: Seq<Seq<T>>) -> Seq<T>
    decreases parts.len(),
{
    if parts.len() == 0 {
        Seq::empty()
    } else {
        flatten(parts.drop_last()) + parts.last()
    }
}

/// Every part but the last has `size` items; the last has from one to
/// `size`.
pub open spec fn batched<T>(parts: Seq<Seq<T>>, size: nat) -> bool {
    forall|i: int|
        0 <= i < parts.len() ==> if i < parts.len() - 1 {
            (#[trigger] parts[i]).len() == size
        } else {
            1 <= parts[i].len() <= size
        }
}

/// Groups `items`, in order, into batches of `batch_size`; the last batch
/// may be smaller.
pub fn batch<T>(items: Vec<T>, batch_size: usize) -> (r: Vec<Vec<T>>)
    requires
        batch_size > 0,
    ensures
        flatten(r@.map_values(|b: Vec<T>| b@)) == items@,
        batched(r@.map_values(|b: Vec<T>| b@), batch_size as nat),
{
    let ghost all = items@;
    let mut rest = items;
    let mut rev: Vec<T> = Vec::new();
    loop
        invariant
            rest@ == all.take(rest@.len() as int),
            rev@.len() + rest@.len() == all.len(),
            forall|q: int| 0 <= q < rev@.len() ==> #[trigger] rev@[q] == all[all.len() - 1 - q],
        ensures
            rest@.len() == 0,
        decreases rest@.len(),
    {
        match rest.pop() {
            Some(x) => {
                rev.push(x);
            },
            None => {
                break;
            },
        }
    }
    let mut out: Vec<Vec<T>> = Vec::new();
    let mut cur: Vec<T> = Vec::new();
    let mut taken: usize = 0;
    let n = rev.len();
    while rev.len() > 0
        invariant
            n == all.len(),
            rev@.len() + taken == n,
            forall|q: int| 0 <= q < rev@.len() ==> #[trigger] rev@[q] == all[n - 1 - q],
            flatten(out@.map_values(|b: Vec<T>| b@)) + cur@ == all.take(taken as int),
            forall|i: int| 0 <= i < out@.len() ==> (#[trigger] out@[i])@.len() == batch_size,
            cur@.len() < batch_size,
        decreases rev@.len(),
    {
        let x = rev.pop().unwrap();
        let ghost before_out = out@;
        cur.push(x);
        proof {
            assert(all.take(taken + 1) == all.take(taken as int).push(all[taken as int]));
        }
        taken = taken + 1;
        if cur.len() == batch_size {
            let mut full: Vec<T> = Vec::new();
            std::mem::swap(&mut full, &mut cur);
            out.push(full);
            proof {
                let m = out@.map_values(|b: Vec<T>| b@);
                assert(m.drop_last() == before_out.map_values(|b: Vec<T>| b@));
                assert(m.last() == out@[out@.len() - 1]@);
                assert(cur@ == Seq::<T>::empty());
                assert(flatten(m) + cur@ == flatten(m));
            }
        }
    }
    if cur.len() > 0 {
        let ghost before_out = out@;
        out.push(cur);
        proof {
            let m = out@.map_values(|b: Vec<T>| b@);
            assert(m.drop_last() == before_out.map_values(|b: Vec<T>| b@));
        }
    } else {
        proof {
            let m = out@.map_values(|b: Vec<T>| b@);
            assert(flatten(m) + cur@ == flatten(m));
        }
    }
    proof {
        assert(all.take(n as int) == all);
    }
    out
}

/// The words of a text: its maximal runs of characters that are not white
/// space, in order.
pub open spec fn words_spec(s: Seq<char>) -> Seq<Seq<char>>
    decreases s.len(),
{
    if s.len() == 0 {
        Seq::empty()
    } else {
        let w = words_spec(s.drop_last());
        if is_ws(s.last()) {
            w
        } else if s.len() >= 2 && !is_ws(s[s.len() - 2]) {
            w.update(w.len() - 1, w.last().push(s.last()))
        } else {
            w.push(seq![s.last()])
        }
    }
}

/// A text ending in a word has at least one word, and that word ends at the
/// text's end.
proof fn lemma_words_last(s: Seq<char>, start: int)
    requires
        0 <= start < s.len(),
        start == 0 || is_ws(s[start - 1]),
        forall|j: int| start <= j < s.len() ==> !is_ws(#[trigger] s[j]),
    ensures
        words_spec(s).len() == words_spec(s.take(start)).len() + 1,
        words_spec(s).take(words_spec(s).len() - 1) == words_spec(s.take(start)),
        words_spec(s).last() == s.subrange(start, s.len() as int),
    decreases s.len(),
{
    let d = s.drop_last();
    if s.len() - 1 == start {
        assert(d == s.take(start));
        assert(s.subrange(start, s.len() as int) =~= seq![s.last()]);
        assert(words_spec(s).take(words_spec(s).len() - 1) =~= words_spec(d));
    } else {
        assert forall|j: int| start <= j < d.len() implies !is_ws(#[trigger] d[j]) by {
            assert(d[j] == s[j]);
        }
        if start > 0 {
            assert(d[start - 1] == s[start - 1]);
        }
        lemma_words_last(d, start);
        assert(d.take(start) == s.take(start));
        assert(s[s.len() - 2] == d.last());
        assert(s.subrange(start, s.len() as int) =~= d.subrange(start, d.len() as int).push(s.last()));
        assert(words_spec(s).take(words_spec(s).len() - 1) =~= words_spec(d).take(words_spec(d).len() - 1));
    }
}

/// The words of `line`: `str::split_whitespace`.
pub fn split_words(line: &str) -> (r: Vec<String>)
    ensures
        r@.map_values(|w: String| w@) == words_spec(line@),
{
    let n = line.unicode_len();
    let mut done: Vec<String> = Vec::new();
    let mut start: Option<usize> = None;
    let mut i: usize = 0;
    while i < n
        invariant
            n == line@.len(),
            i <= n,
            start is Some <==> (i > 0 && !is_ws(line@[i - 1])),
            start matches Some(b) ==> b < i && (b == 0 || is_ws(line@[b - 1])) && forall|j: int|
                b <= j < i ==> !is_ws(#[trigger] line@[j]),
            start is None ==> done@.map_values(|w: String| w@) == words_spec(line@.take(i as int)),
            start matches Some(b) ==> done@.map_values(|w: String| w@) == words_spec(line@.take(b as int)),
        decreases n - i,
    {
        let c = line.get_char(i);
        let ghost t = line@.take(i + 1);
        proof {
            assert(t.drop_last() == line@.take(i as int));
            assert(t.last() == c);
        }
        if is_ws_char(c) {
            match start {
                Some(b) => {
                    let w = line.substring_char(b, i).to_owned();
                    let ghost before = done@;
                    done.push(w);
                    proof {
                        lemma_words_last(line@.take(i as int), b as int);
                        assert(line@.take(i as int).take(b as int) == line@.take(b as int));
                        assert(line@.take(i as int).subrange(b as int, i as int) == line@.subrange(b as int, i as int));
                        assert(done@.map_values(|w: String| w@) =~= before.map_values(|w: String| w@).push(w@));
                        let ws = words_spec(line@.take(i as int));
                        assert(ws =~= ws.take(ws.len() - 1).push(ws.last()));
                    }
                    start = None;
                },
                None => {},
            }
        } else {
            match start {
                Some(b) => {},
                None => {
                    start = Some(i);
                },
            }
        }
        i = i + 1;
    }
    match start {
        Some(b) => {
            let w = line.substring_char(b, n).to_owned();
            let ghost before = done@;
            done.push(w);
            proof {
                assert(line@.take(n as int) == line@);
                lemma_words_last(line@, b as int);
                assert(done@.map_values(|w: String| w@) =~= before.map_values(|w: String| w@).push(w@));
                let ws = words_spec(line@);
                assert(ws =~= ws.take(ws.len() - 1).push(ws.last()));
            }
        },
        None => {
            proof {
                assert(line@.take(n as int) == line@);
            }
        },
    }
    done
}

/// `s` without its leading and trailing white space: `str::trim`.
#[verifier::opaque]
pub open spec fn trim_spec(s: Seq<char>) -> Seq<char> {
    if has_content(s) {
        let a = choose|a: int| 0 <= a < s.len() && !is_ws(s[a]) && forall|j: int| 0 <= j < a ==> is_ws(#[trigger] s[j]);
        let b = choose|b: int|
            0 <= b < s.len() && !is_ws(s[b]) && forall|j: int| b < j < s.len() ==> is_ws(#[trigger] s[j]);
        s.subrange(a, b + 1)
    } else {
        Seq::empty()
    }
}

/// Strips leading and trailing white space.
pub fn trim(s: &str) -> (r: String)
    ensures
        r@ == trim_spec(s@),
{
    let n = s.unicode_len();
    let mut a: usize = 0;
    while a < n && is_ws_char(s.get_char(a))
        invariant
            n == s@.len(),
            a <= n,
            forall|j: int| 0 <= j < a ==> is_ws(#[trigger] s@[j]),
        decreases n - a,
    {
        a = a + 1;
    }
    if a == n {
        proof {
            assert(!has_content(s@));
            reveal(trim_spec);
        }
        return String::new();
    }
    let mut b: usize = n - 1;
    while b > a && is_ws_char(s.get_char(b))
        invariant
            n == s@.len(),
            a <= b < n,
            !is_ws(s@[a as int]),
            forall|j: int| b < j < n ==> is_ws(#[trigger] s@[j]),
        decreases b - a,
    {
        b = b - 1;
    }
    proof {
        reveal(trim_spec);
        assert(has_content(s@)) by {
            assert(!is_ws(s@[a as int]));
        }
        let a2 = choose|a2: int|
            0 <= a2 < s@.len() && !is_ws(s@[a2]) && forall|j: int| 0 <= j < a2 ==> is_ws(#[trigger] s@[j]);
        let b2 = choose|b2: int|
            0 <= b2 < s@.len() && !is_ws(s@[b2]) && forall|j: int| b2 < j < s@.len() ==> is_ws(#[trigger] s@[j]);
        if a2 < a {
            assert(is_ws(s@[a2]));
        }
        if a < a2 {
            assert(is_ws(s@[a as int]));
        }
        if b2 < b {
            assert(is_ws(s@[b as int]));
        }
        if b < b2 {
            assert(is_ws(s@[b2]));
        }
    }
    s.substring_char(a, b + 1).to_owned()
}

/// Words joined by single spaces.
pub open spec fn join_spec(ws: Seq<Seq<char>>) -> Seq<char>
    decreases ws.len(),
{
    if ws.len() == 0 {
        Seq::empty()
    } else if ws.len() == 1 {
        ws[0]
    } else {
        join_spec(ws.drop_last()) + seq![' '] + ws.last()
    }
}

/// Joins words with single spaces.
pub fn join_words(ws: &Vec<String>) -> (r: String)
    ensures
        r@ == join_spec(ws@.map_values(|w: String| w@)),
{
    let mut r = String::new();
    let mut i: usize = 0;
    while i < ws.len()
        invariant
            i <= ws@.len(),
            r@ == join_spec(ws@.take(i as int).map_values(|w: String| w@)),
        decreases ws@.len() - i,
    {
        let ghost m = ws@.take(i + 1).map_values(|w: String| w@);
        proof {
            assert(m.drop_last() =~= ws@.take(i as int).map_values(|w: String| w@));
            assert(m.last() == ws@[i as int]@);
        }
        if i > 0 {
            r.append(" ");
            proof {
                assert(" "@ =~= seq![' ']) by {
                    reveal_strlit(" ");
                }
            }
        } else {
            proof {
                assert(m.len() == 1);
            }
        }
        r.append(ws[i].as_str());
        i = i + 1;
    }
    proof {
        assert(ws@.take(ws@.len() as int) == ws@);
    }
    r
}

/// The state of chunking after some lines: the finished chunks and the
/// words of the chunk being filled.
pub open spec fn chunk_state(lines: Seq<Seq<Seq<char>>>, size: nat, overlap: nat) -> (Seq<Seq<Seq<char>>>, Seq<Seq<char>>)
    decreases lines.len(),
{
    if lines.len() == 0 {
        (Seq::empty(), Seq::empty())
    } else {
        let (chunks, cur) = chunk_state(lines.drop_last(), size, overlap);
        let line = lines.last();
        if line.len() == 0 {
            (chunks, cur)
        } else if cur.len() > 0 && cur.len() + line.len() > size {
            let start = if cur.len() >= overlap { cur.len() - overlap } else { 0 };
            (chunks.push(cur), cur.subrange(start, cur.len() as int) + line)
        } else {
            (chunks, cur + line)
        }
    }
}

/// Lines, given as their words, cut into chunks of words: words are added
/// line by line, and a line that would take a non-empty chunk past `size`
/// words first closes it; the next chunk starts with its last `overlap`
/// words. Lines without words are skipped.
pub open spec fn chunks_spec(lines: Seq<Seq<Seq<char>>>, size: nat, overlap: nat) -> Seq<Seq<Seq<char>>> {
    let (chunks, cur) = chunk_state(lines, size, overlap);
    if cur.len() > 0 {
        chunks.push(cur)
    } else {
        chunks
    }
}

/// Every word of every line has at least one character.
pub open spec fn words_filled(lines: Seq<Seq<Seq<char>>>) -> bool {
    forall|i: int, j: int| 0 <= i < lines.len() && 0 <= j < lines[i].len() ==> (#[trigger] lines[i][j]).len() > 0
}

/// Every word of a text has at least one character.
pub proof fn lemma_words_filled(s: Seq<char>)
    ensures
        forall|k: int| 0 <= k < words_spec(s).len() ==> (#[trigger] words_spec(s)[k]).len() > 0,
        s.len() > 0 && !is_ws(s.last()) ==> words_spec(s).len() > 0,
    decreases s.len(),
{
    if s.len() > 0 {
        let w = words_spec(s.drop_last());
        lemma_words_filled(s.drop_last());
        if s.len() >= 2 {
            assert(s.drop_last().last() == s[s.len() - 2]);
        }
        let r = words_spec(s);
        if !is_ws(s.last()) {
            if s.len() >= 2 && !is_ws(s[s.len() - 2]) {
                assert forall|k: int| 0 <= k < r.len() implies (#[trigger] r[k]).len() > 0 by {
                    if k < w.len() - 1 {
                        assert(r[k] == w[k]);
                    } else {
                        assert(r[k] == w.last().push(s.last()));
                    }
                }
            } else {
                assert forall|k: int| 0 <= k < r.len() implies (#[trigger] r[k]).len() > 0 by {
                    if k < w.len() {
                        assert(r[k] == w[k]);
                    } else {
                        assert(r[k] == seq![s.last()]);
                    }
                }
            }
        }
    }
}

/// Chunking closes a chunk only once it holds words, so every finished chunk
/// holds at least one; where every word has a character, so does every word
/// of every chunk and of the chunk being filled.
pub proof fn lemma_chunk_state_filled(lines: Seq<Seq<Seq<char>>>, size: nat, overlap: nat)
    ensures
        forall|k: int|
            0 <= k < chunk_state(lines, size, overlap).0.len() ==> (#[trigger] chunk_state(lines, size, overlap).0[k]).len()
                > 0,
        words_filled(lines) ==> words_filled(chunk_state(lines, size, overlap).0),
        words_filled(lines) ==> forall|j: int|
            0 <= j < chunk_state(lines, size, overlap).1.len() ==> (#[trigger] chunk_state(lines, size, overlap).1[j]).len()
                > 0,
    decreases lines.len(),
{
    if lines.len() > 0 {
        let d = lines.drop_last();
        lemma_chunk_state_filled(d, size, overlap);
        if words_filled(lines) {
            assert(words_filled(d)) by {
                assert forall|i: int, j: int| 0 <= i < d.len() && 0 <= j < d[i].len() implies (#[trigger] d[i][j]).len() > 0 by {
                    assert(d[i] == lines[i]);
                }
            }
            let (chunks, cur) = chunk_state(d, size, overlap);
            let line = lines.last();
            assert forall|j: int| 0 <= j < line.len() implies (#[trigger] line[j]).len() > 0 by {
                assert(line == lines[lines.len() - 1]);
            }
            if line.len() > 0 && cur.len() > 0 && cur.len() + line.len() > size {
                let start = if cur.len() >= overlap { cur.len() - overlap } else { 0 };
                let nc = chunks.push(cur);
                assert forall|i: int, j: int| 0 <= i < nc.len() && 0 <= j < nc[i].len() implies (#[trigger] nc[i][j]).len() > 0 by {
                    if i < chunks.len() {
                        assert(nc[i] == chunks[i]);
                    }
                }
                let nw = cur.subrange(start as int, cur.len() as int) + line;
                assert forall|j: int| 0 <= j < nw.len() implies (#[trigger] nw[j]).len() > 0 by {
                    if j < cur.len() - start {
                        assert(nw[j] == cur[j + start]);
                    } else {
                        assert(nw[j] == line[j - (cur.len() - start)]);
                    }
                }
            } else if line.len() > 0 {
                let nw = cur + line;
                assert forall|j: int| 0 <= j < nw.len() implies (#[trigger] nw[j]).len() > 0 by {
                    if j < cur.len() {
                        assert(nw[j] == cur[j]);
                    } else {
                        assert(nw[j] == line[j - cur.len()]);
                    }
                }
            }
        }
        let (chunks, cur) = chunk_state(d, size, overlap);
        let line = lines.last();
        if line.len() > 0 && cur.len() > 0 && cur.len() + line.len() > size {
            let nc = chunks.push(cur);
            assert forall|k: int| 0 <= k < nc.len() implies (#[trigger] nc[k]).len() > 0 by {
                if k < chunks.len() {
                    assert(nc[k] == chunks[k]);
                }
            }
        }
    }
}

/// `b` starts with the last `overlap` words of `a` (all of `a` where it is
/// shorter).
pub open spec fn starts_with_tail_of(a: Seq<Seq<char>>, b: Seq<Seq<char>>, overlap: nat) -> bool {
    let n = if a.len() >= overlap { overlap as int } else { a.len() as int };
    &&& n <= b.len()
    &&& b.subrange(0, n) == a.subrange(a.len() - n, a.len() as int)
}

/// Each finished chunk starts with the tail of the one before it, and the
/// chunk being filled with the tail of the last finished one.
pub proof fn lemma_chunk_state_linked(lines: Seq<Seq<Seq<char>>>, size: nat, overlap: nat)
    ensures
        forall|k: int|
            0 <= k < chunk_state(lines, size, overlap).0.len() - 1 ==> starts_with_tail_of(
                #[trigger] chunk_state(lines, size, overlap).0[k],
                chunk_state(lines, size, overlap).0[k + 1],
                overlap,
            ),
        chunk_state(lines, size, overlap).0.len() > 0 ==> starts_with_tail_of(
            chunk_state(lines, size, overlap).0.last(),
            chunk_state(lines, size, overlap).1,
            overlap,
        ),
    decreases lines.len(),
{
    if lines.len() > 0 {
        let d = lines.drop_last();
        lemma_chunk_state_linked(d, size, overlap);
        let (chunks, cur) = chunk_state(d, size, overlap);
        let line = lines.last();
        if line.len() > 0 && cur.len() > 0 && cur.len() + line.len() > size {
            let start = if cur.len() >= overlap { cur.len() - overlap } else { 0 };
            let nc = chunks.push(cur);
            let nw = cur.subrange(start as int, cur.len() as int) + line;
            assert forall|k: int| 0 <= k < nc.len() - 1 implies starts_with_tail_of(#[trigger] nc[k], nc[k + 1], overlap) by {
                assert(nc[k] == chunks[k]);
                if k < chunks.len() - 1 {
                    assert(nc[k + 1] == chunks[k + 1]);
                } else {
                    assert(chunks[k] == chunks.last());
                    assert(nc[k + 1] == cur);
                }
            }
            assert(nc.last() == cur);
            assert(nw.subrange(0, cur.len() - start) =~= cur.subrange(start as int, cur.len() as int));
        } else if line.len() > 0 && chunks.len() > 0 {
            let nw = cur + line;
            let a = chunks.last();
            let n = if a.len() >= overlap { overlap as int } else { a.len() as int };
            assert(nw.subrange(0, n) =~= cur.subrange(0, n));
        }
    }
}

/// Words joined by spaces are empty only when there are none, or one empty
/// word.
pub proof fn lemma_join_nonempty(ws: Seq<Seq<char>>)
    requires
        ws.len() > 0,
        ws.last().len() > 0,
    ensures
        join_spec(ws).len() > 0,
{
    if ws.len() == 1 {
        assert(ws[0] == ws.last());
    }
}

/// Copies `v[from..]`.
fn tail_copy(v: &Vec<String>, from: usize) -> (r: Vec<String>)
    requires
        from <= v@.len(),
    ensures
        r@ == v@.subrange(from as int, v@.len() as int),
{
    let mut r: Vec<String> = Vec::new();
    let mut i: usize = from;
    while i < v.len()
        invariant
            from <= i <= v@.len(),
            r@ == v@.subrange(from as int, i as int),
        decreases v@.len() - i,
    {
        r.push(v[i].clone());
        proof {
            assert(v@.subrange(from as int, i + 1) == v@.subrange(from as int, i as int).push(v@[i as int]));
        }
        i = i + 1;
    }
    r
}

/// Cuts lines of text into chunks of about `chunk_size` words, each chunk
/// after the first starting with the last `overlap` words of the one before,
/// and joins each chunk's words with single spaces.
pub fn chunk_lines(lines: &Vec<String>, chunk_size: usize, overlap: usize) -> (r: Vec<String>)
    ensures
        r@.map_values(|c: String| c@) == chunks_spec(
            lines@.map_values(|l: String| words_spec(l@)),
            chunk_size as nat,
            overlap as nat,
        ).map_values(|c: Seq<Seq<char>>| join_spec(c)),
        forall|j: int| 0 <= j < r@.len() ==> (#[trigger] r@[j])@.len() > 0,
{
    let ghost ls = lines@.map_values(|l: String| words_spec(l@));
    let mut chunks: Vec<String> = Vec::new();
    let mut cur: Vec<String> = Vec::new();
    let mut i: usize = 0;
    while i < lines.len()
        invariant
            i <= lines@.len(),
            ls == lines@.map_values(|l: String| words_spec(l@)),
            chunks@.map_values(|c: String| c@) == chunk_state(ls.take(i as int), chunk_size as nat, overlap as nat).0.map_values(
                |c: Seq<Seq<char>>| join_spec(c),
            ),
            cur@.map_values(|w: String| w@) == chunk_state(ls.take(i as int), chunk_size as nat, overlap as nat).1,
        decreases lines@.len() - i,
    {
        let line_words = split_words(lines[i].as_str());
        let ghost prev = chunk_state(ls.take(i as int), chunk_size as nat, overlap as nat);
        proof {
            assert(ls.take(i + 1).drop_last() == ls.take(i as int));
            assert(ls.take(i + 1).last() == words_spec(lines@[i as int]@));
        }
        if line_words.len() > 0 {
            let over = cur.len() > 0 && (cur.len() > chunk_size || line_words.len() > chunk_size - cur.len());
            if over {
                let text = join_words(&cur);
                let ghost before = chunks@;
                chunks.push(text);
                let start = if cur.len() >= overlap { cur.len() - overlap } else { 0 };
                let kept = tail_copy(&cur, start);
                let ghost old_cur = cur@;
                cur = kept;
                let mut k: usize = 0;
                while k < line_words.len()
                    invariant
                        k <= line_words@.len(),
                        cur@ == old_cur.subrange(start as int, old_cur.len() as int) + line_words@.take(k as int),
                    decreases line_words@.len() - k,
                {
                    cur.push(line_words[k].clone());
                    proof {
                        assert(line_words@.take(k + 1) == line_words@.take(k as int).push(line_words@[k as int]));
                    }
                    k = k + 1;
                }
                proof {
                    assert(line_words@.take(line_words@.len() as int) == line_words@);
                    assert(chunks@.map_values(|c: String| c@) =~= before.map_values(|c: String| c@).push(text@));
                    assert(cur@.map_values(|w: String| w@) =~= old_cur.map_values(|w: String| w@).subrange(
                        start as int,
                        old_cur.len() as int,
                    ) + line_words@.map_values(|w: String| w@));
                }
            } else {
                let ghost old_cur = cur@;
                let mut k: usize = 0;
                while k < line_words.len()
                    invariant
                        k <= line_words@.len(),
                        cur@ == old_cur + line_words@.take(k as int),
                    decreases line_words@.len() - k,
                {
                    cur.push(line_words[k].clone());
                    proof {
                        assert(line_words@.take(k + 1) == line_words@.take(k as int).push(line_words@[k as int]));
                    }
                    k = k + 1;
                }
                proof {
                    assert(line_words@.take(line_words@.len() as int) == line_words@);
                    assert(cur@.map_values(|w: String| w@) =~= old_cur.map_values(|w: String| w@) + line_words@.map_values(
                        |w: String| w@,
                    ));
                }
            }
        }
        i = i + 1;
    }
    proof {
        assert(ls.take(lines@.len() as int) == ls);
    }
    if cur.len() > 0 {
        let text = join_words(&cur);
        let ghost before = chunks@;
        chunks.push(text);
        proof {
            assert(chunks@.map_values(|c: String| c@) =~= before.map_values(|c: String| c@).push(text@));
        }
    }
    proof {
        let st = chunk_state(ls, chunk_size as nat, overlap as nat);
        let cs = chunks_spec(ls, chunk_size as nat, overlap as nat);
        assert(words_filled(ls)) by {
            assert forall|a: int, b: int| 0 <= a < ls.len() && 0 <= b < ls[a].len() implies (#[trigger] ls[a][b]).len() > 0 by {
                lemma_words_filled(lines@[a]@);
                assert(ls[a] == words_spec(lines@[a]@));
            }
        }
        lemma_chunk_state_filled(ls, chunk_size as nat, overlap as nat);
        assert forall|j: int| 0 <= j < chunks@.len() implies (#[trigger] chunks@[j])@.len() > 0 by {
            assert(chunks@.map_values(|c: String| c@)[j] == chunks@[j]@);
            let c = cs[j];
            if j < st.0.len() {
                assert(c == st.0[j]);
                assert(c.len() > 0);
                assert(c[c.len() - 1].len() > 0);
            } else {
                assert(c == st.1);
                assert(c[c.len() - 1].len() > 0);
            }
            lemma_join_nonempty(c);
            assert(cs.map_values(|c: Seq<Seq<char>>| join_spec(c))[j] == join_spec(c));
        }
    }
    chunks
}

/// A source of text to index, read in batches.
pub struct Ingestor {
    /// Path of the text file.
    pub source: String,
    /// Number of items per batch.
    pub batch_size: usize,
}

/// The non-empty trimmed lines, in order.
pub open spec fn kept_lines(lines: Seq<String>) -> Seq<Seq<char>>
    decreases lines.len(),
{
    if lines.len() == 0 {
        Seq::empty()
    } else {
        let t = trim_spec(lines.last()@);
        if t.len() > 0 {
            kept_lines(lines.drop_last()).push(t)
        } else {
            kept_lines(lines.drop_last())
        }
    }
}

/// Trims every line and drops the empty ones.
fn trimmed_lines(lines: &Vec<String>) -> (r: Vec<String>)
    ensures
        r@.map_values(|l: String| l@) == kept_lines(lines@),
{
    let mut r: Vec<String> = Vec::new();
    let mut i: usize = 0;
    while i < lines.len()
        invariant
            i <= lines@.len(),
            r@.map_values(|l: String| l@) == kept_lines(lines@.take(i as int)),
        decreases lines@.len() - i,
    {
        let t = trim(lines[i].as_str());
        proof {
            assert(lines@.take(i + 1).drop_last() == lines@.take(i as int));
            assert(lines@.take(i + 1).last() == lines@[i as int]);
        }
        if t.unicode_len() > 0 {
            let ghost before = r@;
            r.push(t);
            proof {
                assert(r@.map_values(|l: String| l@) =~= before.map_values(|l: String| l@).push(t@));
            }
        }
        i = i + 1;
    }
    proof {
        assert(lines@.take(lines@.len() as int) == lines@);
    }
    r
}

impl Ingestor {
    /// An ingestor for the file `source`, reading `batch_size` items per
    /// batch; the batch size must be a multiple of 8.
    pub fn new(source: String, batch_size: usize) -> (g: Self)
        requires
            batch_size % 8 == 0,
        ensures
            g.source == source,
            g.batch_size == batch_size,
    {
        Ingestor { source, batch_size }
    }

    /// The lines of the file (as read, split at line feeds), trimmed, empty
    /// ones dropped, in batches of `batch_size`.
    pub fn line_batches(&self, lines: &Vec<String>) -> (r: Vec<Vec<String>>)
        requires
            self.batch_size > 0,
        ensures
            flatten(r@.map_values(|b: Vec<String>| b@)).map_values(|l: String| l@) == kept_lines(lines@),
            batched(r@.map_values(|b: Vec<String>| b@), self.batch_size as nat),
    {
        let kept = trimmed_lines(lines);
        batch(kept, self.batch_size)
    }

    /// The lines of the file cut into chunks of about `chunk_size` words
    /// with `overlap` words shared between neighbors (see `chunk_lines`), in
    /// batches of `batch_size`.
    pub fn chunk_batches(&self, lines: &Vec<String>, chunk_size: usize, overlap: usize) -> (r: Vec<Vec<String>>)
        requires
            self.batch_size > 0,
        ensures
            flatten(r@.map_values(|b: Vec<String>| b@)).map_values(|c: String| c@) == chunks_spec(
                lines@.map_values(|l: String| words_spec(l@)),
                chunk_size as nat,
                overlap as nat,
            ).map_values(|c: Seq<Seq<char>>| join_spec(c)),
            batched(r@.map_values(|b: Vec<String>| b@), self.batch_size as nat),
    {
        let chunks = chunk_lines(lines, chunk_size, overlap);
        batch(chunks, self.batch_size)
    }
}

} // verus!
