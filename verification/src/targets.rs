//! The remote endpoints that one process is connected to.
use vstd::prelude::*;
use crate::text::{
    chars_of, find_in, find_seq, line_bounds, lines, pieces, string_of, trim, trim_chars,
    trim_end_pattern, trim_end_seq, word_bounds, words,
};
use crate::traffic::{arrow, first_containing};

verus! {

broadcast use vstd::string::group_string_axioms;

/// Lexicographic order of texts by character, the order of `String`'s `Ord`.
pub open spec fn lex_lt(a: Seq<char>, b: Seq<char>) -> bool
    decreases a.len(),
{
    if a.len() == 0 {
        b.len() > 0
    } else if b.len() == 0 {
        false
    } else if a[0] != b[0] {
        a[0] < b[0]
    } else {
        lex_lt(a.drop_first(), b.drop_first())
    }
}

pub proof fn lemma_lex_irreflexive(a: Seq<char>)
    ensures
        !lex_lt(a, a),
    decreases a.len(),
{
    if a.len() > 0 {
        lemma_lex_irreflexive(a.drop_first());
    }
}

pub proof fn lemma_lex_total(a: Seq<char>, b: Seq<char>)
    ensures
        a != b ==> lex_lt(a, b) || lex_lt(b, a),
        !(lex_lt(a, b) && lex_lt(b, a)),
    decreases a.len(),
{
    if a.len() > 0 && b.len() > 0 && a[0] == b[0] {
        lemma_lex_total(a.drop_first(), b.drop_first());
        if a != b {
            assert(a.drop_first() != b.drop_first()) by {
                if a.drop_first() == b.drop_first() {
                    assert(a =~= seq![a[0]] + a.drop_first());
                    assert(b =~= seq![b[0]] + b.drop_first());
                }
            }
        }
    } else if a.len() == 0 && b.len() == 0 {
        assert(a =~= b);
    }
}

pub proof fn lemma_lex_transitive(a: Seq<char>, b: Seq<char>, c: Seq<char>)
    requires
        lex_lt(a, b),
        lex_lt(b, c),
    ensures
        lex_lt(a, c),
    decreases a.len(),
{
    if a.len() > 0 && b.len() > 0 && c.len() > 0 && a[0] == b[0] && b[0] == c[0] {
        lemma_lex_transitive(a.drop_first(), b.drop_first(), c.drop_first());
    }
}

proof fn lemma_lex_common_prefix(a: Seq<char>, b: Seq<char>, i: int)
    requires
        0 <= i <= a.len(),
        i <= b.len(),
        forall|j: int| 0 <= j < i ==> a[j] == b[j],
    ensures
        lex_lt(a, b) == lex_lt(a.skip(i), b.skip(i)),
    decreases i,
{
    if i == 0 {
        assert(a.skip(0) =~= a);
        assert(b.skip(0) =~= b);
    } else {
        let a1 = a.drop_first();
        let b1 = b.drop_first();
        assert forall|j: int| 0 <= j < i - 1 implies a1[j] == b1[j] by {
            assert(a1[j] == a[j + 1] && b1[j] == b[j + 1]);
        }
        lemma_lex_common_prefix(a1, b1, i - 1);
        assert(a1.skip(i - 1) =~= a.skip(i));
        assert(b1.skip(i - 1) =~= b.skip(i));
    }
}

/// Whether `a` comes before `b` (`<` on `str`).
pub fn lex_less(a: &[char], b: &[char]) -> (r: bool)
    ensures
        r == lex_lt(a@, b@),
{
    let n = a.len();
    let m = b.len();
    let mut i: usize = 0;
    while i < n && i < m && a[i] == b[i]
        invariant
            i <= n == a@.len(),
            i <= m == b@.len(),
            forall|j: int| 0 <= j < i ==> a@[j] == b@[j],
        decreases n - i,
    {
        i = i + 1;
    }
    proof {
        lemma_lex_common_prefix(a@, b@, i as int);
    }
    if i < n && i < m {
        assert(a@.skip(i as int)[0] == a@[i as int]);
        assert(b@.skip(i as int)[0] == b@[i as int]);
        a[i] < b[i]
    } else {
        i == n && i < m
    }
}

pub open spec fn established() -> Seq<char> {
    seq!['(', 'E', 'S', 'T', 'A', 'B', 'L', 'I', 'S', 'H', 'E', 'D', ')']
}

/// The remote endpoint of an `lsof` line: the part after `->` of its first
/// field with `->`, without `(ESTABLISHED)` suffixes, trimmed; none where it
/// is empty or no field has `->`.
pub open spec fn target_of_line(line: Seq<char>) -> Option<Seq<char>> {
    let f = words(line);
    let k = first_containing(f, arrow());
    if k < 0 || k >= f.len() {
        None
    } else {
        let conn = f[k];
        let i = find_seq(conn, arrow())->0;
        let t = trim(trim_end_seq(conn.skip(i + 2), established()));
        if t.len() > 0 {
            Some(t)
        } else {
            None
        }
    }
}

/// The endpoints that the lines `ls` show.
pub open spec fn targets_of(ls: Seq<Seq<char>>) -> Set<Seq<char>>
    decreases ls.len(),
{
    if ls.len() == 0 {
        Set::empty()
    } else {
        let prev = targets_of(ls.drop_last());
        match target_of_line(ls.last()) {
            Some(t) => prev.insert(t),
            None => prev,
        }
    }
}

/// The endpoints of `lsof -P -a -p <pid> -iTCP -sTCP:ESTABLISHED` output,
/// header line left out.
pub open spec fn process_targets_spec(raw: Seq<char>) -> Set<Seq<char>> {
    let ls = lines(raw);
    if ls.len() == 0 {
        Set::empty()
    } else {
        targets_of(ls.skip(1))
    }
}

pub open spec fn sorted_strictly(v: Seq<Seq<char>>) -> bool {
    forall|i: int, j: int| 0 <= i < j < v.len() ==> lex_lt(#[trigger] v[i], #[trigger] v[j])
}

fn target_of_line_exec(line: &[char]) -> (r: Option<Vec<char>>)
    ensures
        match r {
            Some(t) => target_of_line(line@) == Some(t@),
            None => target_of_line(line@) is None,
        },
{
    let wb = word_bounds(line);
    let ghost f = words(line@);
    let arr = ['-', '>'];
    assert(arr@ =~= arrow());
    let est = ['(', 'E', 'S', 'T', 'A', 'B', 'L', 'I', 'S', 'H', 'E', 'D', ')'];
    assert(est@ =~= established());
    let mut k: usize = 0;
    while k < wb.len()
        invariant
            k <= wb@.len() == f.len(),
            f == words(line@),
            arr@ == arrow(),
            est@ == established(),
            crate::text::ranges_within(wb@, line@.len()),
            pieces(line@, wb@) == f,
            forall|i: int| 0 <= i < k ==> !crate::text::contains_seq(#[trigger] f[i], arrow()),
        decreases wb@.len() - k,
    {
        let (a, b) = wb[k];
        assert(line@.subrange(a as int, b as int) == f[k as int]);
        let w = vstd::slice::slice_subrange(line, a, b);
        match find_in(w, arr.as_slice()) {
            Some(i) => {
                proof {
                    crate::traffic::lemma_first_containing_at(f, arrow(), k as int);
                }
                assert(crate::text::occurs_at(w@, arr@, i as int));
                let right = vstd::slice::slice_subrange(w, i + 2, w.len());
                assert(right@ =~= w@.skip(i + 2));
                let t = trim_chars(trim_end_pattern(right, est.as_slice()));
                if t.len() > 0 {
                    return Some(vstd::slice::slice_to_vec(t));
                } else {
                    return None;
                }
            },
            None => {},
        }
        k = k + 1;
    }
    proof {
        crate::traffic::lemma_first_containing_at(f, arrow(), f.len() as int);
    }
    None
}

pub open spec fn strings_view(v: Seq<String>) -> Seq<Seq<char>> {
    v.map_values(|s: String| s@)
}

fn string_less(a: &String, b: &[char]) -> (r: bool)
    ensures
        r == lex_lt(a@, b@),
{
    let ac = chars_of(a.as_str());
    lex_less(ac.as_slice(), b)
}

/// Adds `t` to a strictly sorted list unless it is there already.
fn insert_sorted(out: &mut Vec<String>, t: String)
    requires
        sorted_strictly(strings_view(old(out)@)),
    ensures
        sorted_strictly(strings_view(final(out)@)),
        strings_view(final(out)@).to_set() == strings_view(old(out)@).to_set().insert(t@),
{
    let tc = chars_of(t.as_str());
    let ghost before = strings_view(out@);
    let mut j: usize = 0;
    while j < out.len() && string_less(&out[j], tc.as_slice())
        invariant
            j <= out@.len(),
            tc@ == t@,
            before == strings_view(out@),
            forall|i: int| 0 <= i < j ==> lex_lt(#[trigger] before[i], t@),
        decreases out@.len() - j,
    {
        assert(lex_lt(before[j as int], t@));
        j = j + 1;
    }
    if j < out.len() {
        let oc = chars_of(out[j].as_str());
        assert(before[j as int] == oc@);
        assert(!lex_lt(before[j as int], t@));
        if crate::text::chars_eq(oc.as_slice(), tc.as_slice()) {
            assert(before.contains(t@)) by {
                assert(before[j as int] == t@);
            }
            assert(before.to_set().insert(t@) =~= before.to_set());
            return;
        }
        proof {
            lemma_lex_total(oc@, t@);
        }
        assert(lex_lt(t@, before[j as int]));
    }
    out.insert(j, t);
    let ghost after = strings_view(out@);
    assert(after =~= before.insert(j as int, tc@));
    assert forall|a: int, b: int| 0 <= a < b < after.len() implies lex_lt(
        #[trigger] after[a],
        #[trigger] after[b],
    ) by {
        if b < j {
            assert(after[a] == before[a] && after[b] == before[b]);
        } else if b == j {
            assert(after[a] == before[a]);
        } else if a == j {
            assert(after[b] == before[b - 1]);
            assert(lex_lt(t@, before[j as int]));
            if b - 1 > j {
                assert(lex_lt(before[j as int], before[b - 1]));
                lemma_lex_transitive(t@, before[j as int], before[b - 1]);
            }
        } else if a < j {
            assert(after[a] == before[a] && after[b] == before[b - 1]);
            assert(lex_lt(before[a], t@));
            if b - 1 >= j {
                lemma_lex_transitive(before[a], t@, before[j as int]);
                if b - 1 > j {
                    lemma_lex_transitive(before[a], before[j as int], before[b - 1]);
                }
            }
        } else {
            assert(after[a] == before[a - 1] && after[b] == before[b - 1]);
        }
    }
    assert forall|x: Seq<char>| after.to_set().contains(x) <==> before.to_set().insert(t@).contains(x) by {
        if after.contains(x) {
            let w = choose|w: int| 0 <= w < after.len() && after[w] == x;
            if w < j {
                assert(before[w] == x);
            } else if w > j {
                assert(before[w - 1] == x);
            }
        }
        if before.contains(x) {
            let w = choose|w: int| 0 <= w < before.len() && before[w] == x;
            if w < j {
                assert(after[w] == x);
            } else {
                assert(after[w + 1] == x);
            }
        }
        if x == t@ {
            assert(after[j as int] == x);
        }
    }
    assert(after.to_set() =~= before.to_set().insert(t@));
}

/// The distinct remote endpoints of a process, sorted, from `lsof` output.
pub fn process_targets(raw: &str) -> (r: Vec<String>)
    ensures
        sorted_strictly(strings_view(r@)),
        strings_view(r@).to_set() == process_targets_spec(raw@),
{
    let c = chars_of(raw);
    let s = c.as_slice();
    let lb = line_bounds(s);
    let ghost ls = lines(s@);
    let mut out: Vec<String> = Vec::new();
    assert(strings_view(out@).to_set() =~= Set::<Seq<char>>::empty());
    if lb.len() == 0 {
        return out;
    }
    let mut k: usize = 1;
    assert(ls.skip(1).take(0) =~= Seq::<Seq<char>>::empty());
    while k < lb.len()
        invariant
            1 <= k <= lb@.len() == ls.len(),
            ls == lines(s@),
            crate::text::ranges_within(lb@, s@.len()),
            pieces(s@, lb@) == ls,
            sorted_strictly(strings_view(out@)),
            strings_view(out@).to_set() == targets_of(ls.skip(1).take(k - 1)),
        decreases lb@.len() - k,
    {
        let (a, b) = lb[k];
        assert(s@.subrange(a as int, b as int) == ls[k as int]);
        let ghost t1 = ls.skip(1).take(k - 1);
        let ghost t2 = ls.skip(1).take(k as int);
        assert(t2.drop_last() =~= t1);
        assert(t2.last() == ls[k as int]);
        match target_of_line_exec(vstd::slice::slice_subrange(s, a, b)) {
            Some(t) => {
                insert_sorted(&mut out, string_of(t.as_slice()));
            },
            None => {},
        }
        k = k + 1;
    }
    assert(ls.skip(1).take(k - 1) =~= ls.skip(1));
    out
}

/// The error of a failed `lsof`: its trimmed standard error, or `lsof failed`.
pub fn lsof_error(stderr: &str) -> (r: String)
    ensures
        r@ == (if trim(stderr@).len() == 0 {
            "lsof failed"@
        } else {
            trim(stderr@)
        }),
{
    let c = chars_of(stderr);
    let t = trim_chars(c.as_slice());
    if t.len() == 0 {
        "lsof failed".to_string()
    } else {
        string_of(t)
    }
}

/// The established TCP peers of a process once `lsof` finished: the sorted,
/// distinct endpoints where it succeeded, else its error.
pub fn get_process_targets(success: bool, stdout: &str, stderr: &str) -> (r: Result<
    Vec<String>,
    String,
>)
    ensures
        success <==> r is Ok,
        r matches Ok(v) ==> sorted_strictly(strings_view(v@)) && strings_view(v@).to_set()
            == process_targets_spec(stdout@),
        r matches Err(e) ==> e@ == (if trim(stderr@).len() == 0 {
            "lsof failed"@
        } else {
            trim(stderr@)
        }),
{
    if !success {
        return Err(lsof_error(stderr));
    }
    Ok(process_targets(stdout))
}

} // verus!
