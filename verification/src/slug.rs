//! Project slugs: the directory names under which transcripts are kept,
//! their display names and the clusters they are grouped into.
use vstd::prelude::*;
use crate::text::{chars_of, string_of};

verus! {

/// The marker `ACTION-` that names a project's category.
pub open spec fn action_marker() -> Seq<char> {
    seq!['A', 'C', 'T', 'I', 'O', 'N', '-']
}

/// The cluster name of projects without a category.
pub open spec fn other_cluster() -> Seq<char> {
    seq!['O', 't', 'h', 'e', 'r']
}

/// `pat` occurs in `s` at position `i`.
pub open spec fn occurs_at(s: Seq<char>, pat: Seq<char>, i: int) -> bool {
    0 <= i && i + pat.len() <= s.len() && s.subrange(i, i + pat.len()) == pat
}

/// `i` is the first position at which `pat` occurs in `s`.
pub open spec fn is_first_occurrence(s: Seq<char>, pat: Seq<char>, i: int) -> bool {
    occurs_at(s, pat, i) && forall|j: int| 0 <= j < i ==> !occurs_at(s, pat, j)
}

/// The first position at which `pat` occurs in `s` (`str::find`).
pub open spec fn first_occurrence(s: Seq<char>, pat: Seq<char>) -> Option<int> {
    if exists|i: int| is_first_occurrence(s, pat, i) {
        Some(choose|i: int| is_first_occurrence(s, pat, i))
    } else {
        None
    }
}

/// `s` with every occurrence of `pat`, taken from left to right without
/// overlap, replaced by `rep` (`str::replace`).
pub open spec fn replace_all(s: Seq<char>, pat: Seq<char>, rep: Seq<char>) -> Seq<char>
    decreases s.len(),
{
    if pat.len() == 0 || s.len() < pat.len() {
        s
    } else if s.take(pat.len() as int) == pat {
        rep + replace_all(s.skip(pat.len() as int), pat, rep)
    } else {
        seq![s[0]] + replace_all(s.skip(1), pat, rep)
    }
}

/// `s` without the copies of `c` it starts with (`str::trim_start_matches`).
pub open spec fn strip_leading(s: Seq<char>, c: char) -> Seq<char>
    decreases s.len(),
{
    if s.len() > 0 && s[0] == c {
        strip_leading(s.skip(1), c)
    } else {
        s
    }
}

/// The longest prefix of `s` without `c` (`chars().take_while(|x| *x != c)`).
pub open spec fn prefix_before(s: Seq<char>, c: char) -> Seq<char>
    decreases s.len(),
{
    if s.len() == 0 || s[0] == c {
        Seq::empty()
    } else {
        seq![s[0]] + prefix_before(s.skip(1), c)
    }
}

/// The part of `s` after the last `c` (all of `s` when it holds no `c`).
pub open spec fn suffix_after(s: Seq<char>, c: char) -> Seq<char>
    decreases s.len(),
{
    if s.len() == 0 || s.last() == c {
        Seq::empty()
    } else {
        suffix_after(s.drop_last(), c).push(s.last())
    }
}

/// The last non-empty piece of `s` split at `c`, if there is one
/// (`s.rsplit(c).find(|p| !p.is_empty())`).
pub open spec fn last_piece(s: Seq<char>, c: char) -> Option<Seq<char>>
    decreases s.len(),
{
    if s.len() == 0 {
        None
    } else if s.last() == c {
        last_piece(s.drop_last(), c)
    } else {
        Some(suffix_after(s, c))
    }
}

/// The cluster a project slug belongs to: `ACTION-` and the category that
/// follows the first `ACTION-` in the slug up to the next `-`, or `Other`.
pub open spec fn cluster_of(slug: Seq<char>) -> Seq<char> {
    match first_occurrence(slug, action_marker()) {
        Some(i) => {
            let category = prefix_before(slug.skip(i + 7), '-');
            if category.len() > 0 {
                action_marker() + category
            } else {
                other_cluster()
            }
        },
        None => other_cluster(),
    }
}

/// The display name of a project slug: with leading dashes removed, the part
/// from the first `ACTION-` on with `---` and then `--` collapsed to `-`;
/// else the last non-empty piece between dashes.
pub open spec fn display_name_of(slug: Seq<char>) -> Seq<char> {
    let trimmed = strip_leading(slug, '-');
    match first_occurrence(trimmed, action_marker()) {
        Some(i) => replace_all(
            replace_all(trimmed.skip(i), seq!['-', '-', '-'], seq!['-']),
            seq!['-', '-'],
            seq!['-'],
        ),
        None => match last_piece(trimmed, '-') {
            Some(piece) => piece,
            None => trimmed,
        },
    }
}

proof fn lemma_first_occurrence_unique(s: Seq<char>, pat: Seq<char>, i: int)
    requires
        is_first_occurrence(s, pat, i),
    ensures
        first_occurrence(s, pat) == Some(i),
{
    let k = choose|k: int| is_first_occurrence(s, pat, k);
    assert(is_first_occurrence(s, pat, k));
    if k < i {
        assert(!occurs_at(s, pat, k));
    } else if i < k {
        assert(!occurs_at(s, pat, i));
    }
}

fn matches_at(s: &Vec<char>, pat: &Vec<char>, i: usize) -> (r: bool)
    requires
        i <= s@.len(),
    ensures
        r == occurs_at(s@, pat@, i as int),
{
    if pat.len() > s.len() - i {
        return false;
    }
    let mut k: usize = 0;
    while k < pat.len()
        invariant
            k <= pat@.len(),
            i <= s.len(),
            i + pat.len() <= s.len(),
            forall|j: int| 0 <= j < k ==> s@[i + j] == pat@[j],
        decreases pat@.len() - k,
    {
        if s[i + k] != pat[k] {
            assert(s@.subrange(i as int, i + pat@.len())[k as int] != pat@[k as int]);
            return false;
        }
        k = k + 1;
    }
    assert(s@.subrange(i as int, i + pat@.len()) =~= pat@);
    true
}

/// The first position of `pat` in `s`.
fn find(s: &Vec<char>, pat: &Vec<char>) -> (r: Option<usize>)
    ensures
        r matches Some(i) ==> first_occurrence(s@, pat@) == Some(i as int) && is_first_occurrence(s@, pat@, i as int),
        r is None ==> first_occurrence(s@, pat@) is None,
{
    let mut i: usize = 0;
    loop
        invariant
            i <= s@.len(),
            forall|j: int| 0 <= j < i ==> !occurs_at(s@, pat@, j),
        decreases s@.len() - i,
    {
        if matches_at(s, pat, i) {
            proof {
                lemma_first_occurrence_unique(s@, pat@, i as int);
            }
            return Some(i);
        }
        if i == s.len() {
            assert(forall|j: int| !is_first_occurrence(s@, pat@, j));
            return None;
        }
        i = i + 1;
    }
}

fn action_chars() -> (r: Vec<char>)
    ensures
        r@ == action_marker(),
{
    let r = vec!['A', 'C', 'T', 'I', 'O', 'N', '-'];
    assert(r@ =~= action_marker());
    r
}

/// The cluster a project slug belongs to, e.g. `ACTION-HEALTH` for both
/// `...-ACTION-HEALTH` and `...-ACTION-HEALTH---pohwer-...`; `Other` for a
/// slug without `ACTION-`.
pub fn cluster_key(slug: &str) -> (r: String)
    ensures
        r@ == cluster_of(slug@),
{
    let s = chars_of(slug);
    let marker = action_chars();
    if let Some(idx) = find(&s, &marker) {
        assert(marker@.len() == 7);
        assert(idx + 7 <= s.len());
        let start = idx + 7;
        let mut category: Vec<char> = Vec::new();
        let mut k: usize = start;
        assert(s@.skip(start as int) =~= s@.skip(k as int));
        while k < s.len() && s[k] != '-'
            invariant
                start <= k <= s@.len(),
                prefix_before(s@.skip(start as int), '-') == category@ + prefix_before(s@.skip(k as int), '-'),
            decreases s@.len() - k,
        {
            category.push(s[k]);
            assert(s@.skip(k as int).skip(1) =~= s@.skip(k + 1));
            k = k + 1;
        }
        proof {
            assert(prefix_before(s@.skip(k as int), '-') =~= Seq::<char>::empty());
            assert(category@ =~= prefix_before(s@.skip(start as int), '-'));
        }
        if category.len() > 0 {
            let mut key = marker;
            let mut j: usize = 0;
            while j < category.len()
                invariant
                    j <= category@.len(),
                    key@ == action_marker() + category@.take(j as int),
                decreases category@.len() - j,
            {
                key.push(category[j]);
                j = j + 1;
                assert(key@ =~= action_marker() + category@.take(j as int));
            }
            assert(category@.take(category@.len() as int) =~= category@);
            return string_of(&key);
        }
    }
    let other = vec!['O', 't', 'h', 'e', 'r'];
    assert(other@ =~= other_cluster());
    string_of(&other)
}

fn skip_chars(v: &Vec<char>, k: usize) -> (r: Vec<char>)
    requires
        k <= v@.len(),
    ensures
        r@ == v@.skip(k as int),
{
    slice_chars(v, k, v.len())
}

fn slice_chars(v: &Vec<char>, from: usize, to: usize) -> (r: Vec<char>)
    requires
        from <= to <= v@.len(),
    ensures
        r@ == v@.subrange(from as int, to as int),
{
    let mut r: Vec<char> = Vec::new();
    let mut i: usize = from;
    while i < to
        invariant
            from <= i <= to,
            to <= v@.len(),
            r@ == v@.subrange(from as int, i as int),
        decreases to - i,
    {
        r.push(v[i]);
        i = i + 1;
        assert(r@ =~= v@.subrange(from as int, i as int));
    }
    r
}

fn replace_chars(s: &Vec<char>, pat: &Vec<char>, rep: &Vec<char>) -> (r: Vec<char>)
    requires
        pat@.len() > 0,
    ensures
        r@ == replace_all(s@, pat@, rep@),
{
    let mut out: Vec<char> = Vec::new();
    let mut i: usize = 0;
    assert(s@.skip(0) =~= s@);
    while i < s.len()
        invariant
            i <= s@.len(),
            pat@.len() > 0,
            replace_all(s@, pat@, rep@) == out@ + replace_all(s@.skip(i as int), pat@, rep@),
        decreases s@.len() - i,
    {
        let ghost rest = s@.skip(i as int);
        if pat.len() <= s.len() - i && matches_at(s, pat, i) {
            assert(rest.take(pat@.len() as int) =~= s@.subrange(i as int, i + pat@.len()));
            assert(rest.skip(pat@.len() as int) =~= s@.skip(i + pat@.len()));
            let mut j: usize = 0;
            let ghost before = out@;
            while j < rep.len()
                invariant
                    j <= rep@.len(),
                    out@ == before + rep@.take(j as int),
                decreases rep@.len() - j,
            {
                out.push(rep[j]);
                j = j + 1;
                assert(out@ =~= before + rep@.take(j as int));
            }
            assert(rep@.take(rep@.len() as int) =~= rep@);
            i = i + pat.len();
        } else {
            proof {
                if rest.len() >= pat@.len() {
                    assert(rest.take(pat@.len() as int) =~= s@.subrange(i as int, i + pat@.len()));
                }
                assert(rest.skip(1) =~= s@.skip(i + 1));
                assert(rest[0] == s@[i as int]);
                if rest.len() < pat@.len() {
                    assert(rest =~= seq![rest[0]] + rest.skip(1));
                    assert(replace_all(rest.skip(1), pat@, rep@) == rest.skip(1));
                }
            }
            out.push(s[i]);
            i = i + 1;
        }
    }
    assert(s@.skip(i as int) =~= Seq::<char>::empty());
    assert(out@ =~= replace_all(s@, pat@, rep@));
    out
}

/// A readable name for a project slug, e.g.
/// `-Users-tea-Dropbox---apr-2026----ACTION-HEALTH` gives `ACTION-HEALTH`.
pub fn prettify_slug(slug: &str) -> (r: String)
    ensures
        r@ == display_name_of(slug@),
{
    let s = chars_of(slug);
    let mut k: usize = 0;
    assert(s@.skip(0) =~= s@);
    while k < s.len() && s[k] == '-'
        invariant
            k <= s@.len(),
            strip_leading(s@, '-') == strip_leading(s@.skip(k as int), '-'),
        decreases s@.len() - k,
    {
        assert(s@.skip(k as int).skip(1) =~= s@.skip(k + 1));
        k = k + 1;
    }
    let trimmed = skip_chars(&s, k);
    assert(strip_leading(s@, '-') == trimmed@);
    let marker = action_chars();
    if let Some(idx) = find(&trimmed, &marker) {
        let tail = skip_chars(&trimmed, idx);
        let three = vec!['-', '-', '-'];
        let two = vec!['-', '-'];
        let one = vec!['-'];
        assert(three@ =~= seq!['-', '-', '-']);
        assert(two@ =~= seq!['-', '-']);
        assert(one@ =~= seq!['-']);
        let once = replace_chars(&tail, &three, &one);
        let twice = replace_chars(&once, &two, &one);
        return string_of(&twice);
    }
    // the last piece: drop the dashes at the end, then take what follows the
    // last dash before them
    let mut j: usize = trimmed.len();
    assert(trimmed@.take(j as int) =~= trimmed@);
    while j > 0 && trimmed[j - 1] == '-'
        invariant
            j <= trimmed@.len(),
            last_piece(trimmed@, '-') == last_piece(trimmed@.take(j as int), '-'),
        decreases j,
    {
        assert(trimmed@.take(j as int).drop_last() =~= trimmed@.take(j - 1));
        j = j - 1;
    }
    if j == 0 {
        return string_of(&trimmed);
    }
    let mut i: usize = j;
    assert(trimmed@.take(j as int).drop_last().len() == j - 1);
    assert(trimmed@.subrange(j as int, j as int) =~= Seq::<char>::empty());
    while i > 0 && trimmed[i - 1] != '-'
        invariant
            i <= j <= trimmed@.len(),
            suffix_after(trimmed@.take(j as int), '-') == suffix_after(trimmed@.take(i as int), '-') + trimmed@.subrange(i as int, j as int),
        decreases i,
    {
        assert(trimmed@.take(i as int).drop_last() =~= trimmed@.take(i - 1));
        assert(trimmed@.subrange(i - 1, j as int) =~= seq![trimmed@[i - 1]] + trimmed@.subrange(i as int, j as int));
        i = i - 1;
    }
    assert(suffix_after(trimmed@.take(i as int), '-') =~= Seq::<char>::empty());
    let piece = slice_chars(&trimmed, i, j);
    assert(piece@ =~= suffix_after(trimmed@.take(j as int), '-'));
    string_of(&piece)
}


proof fn lemma_strip_leading(s: Seq<char>, c: char) -> (k: int)
    ensures
        0 <= k <= s.len(),
        strip_leading(s, c) == s.skip(k),
        forall|j: int| 0 <= j < k ==> s[j] == c,
    decreases s.len(),
{
    if s.len() > 0 && s[0] == c {
        let k1 = lemma_strip_leading(s.skip(1), c);
        assert(s.skip(1).skip(k1) =~= s.skip(k1 + 1));
        assert forall|j: int| 0 <= j < k1 + 1 implies s[j] == c by {
            if j > 0 {
                assert(s[j] == s.skip(1)[j - 1]);
            }
        }
        k1 + 1
    } else {
        assert(s.skip(0) =~= s);
        0
    }
}

proof fn lemma_prefix_before(v: Seq<char>, c: char)
    ensures
        prefix_before(v, c).len() <= v.len(),
        prefix_before(v, c) == v.take(prefix_before(v, c).len() as int),
        prefix_before(v, c).len() == v.len() || v[prefix_before(v, c).len() as int] == c,
        forall|j: int| 0 <= j < prefix_before(v, c).len() ==> v[j] != c,
    decreases v.len(),
{
    if v.len() > 0 && v[0] != c {
        lemma_prefix_before(v.skip(1), c);
        let p = prefix_before(v.skip(1), c);
        assert(prefix_before(v, c) =~= v.take(p.len() + 1int)) by {
            assert(p =~= v.skip(1).take(p.len() as int));
        }
        assert forall|j: int| 0 <= j < p.len() + 1 implies v[j] != c by {
            if j > 0 {
                assert(v[j] == v.skip(1)[j - 1]);
            }
        }
        if p.len() < v.skip(1).len() {
            assert(v[p.len() + 1int] == v.skip(1)[p.len() as int]);
        }
    } else {
        assert(v.take(0) =~= Seq::<char>::empty());
    }
}

/// No two dashes stand next to each other in `a`, and none ends it before
/// the end.
spec fn no_double_dash(a: Seq<char>) -> bool {
    forall|j: int| 0 <= j < a.len() && #[trigger] a[j] == '-' ==> j + 1 < a.len() && a[j + 1] != '-'
}

proof fn lemma_replace_after(a: Seq<char>, b: Seq<char>, pat: Seq<char>, rep: Seq<char>)
    requires
        pat.len() >= 2,
        pat[0] == '-',
        pat[1] == '-',
        no_double_dash(a),
    ensures
        replace_all(a + b, pat, rep) == a + replace_all(b, pat, rep),
    decreases a.len(),
{
    let s = a + b;
    if a.len() == 0 {
        assert(s =~= b);
        assert(a + replace_all(b, pat, rep) =~= replace_all(b, pat, rep));
    } else if s.len() < pat.len() {
        assert(b.len() < pat.len());
    } else {
        assert(s.take(pat.len() as int) != pat) by {
            if s[0] == '-' {
                assert(a[0] == '-');
                assert(s[1] == a[1]);
                assert(s.take(pat.len() as int)[1] == s[1]);
            } else {
                assert(s.take(pat.len() as int)[0] == s[0]);
            }
        }
        let a1 = a.skip(1);
        assert forall|j: int| 0 <= j < a1.len() && #[trigger] a1[j] == '-' implies j + 1 < a1.len() && a1[j + 1] != '-' by {
            assert(a1[j] == a[j + 1]);
            assert(a[j + 1] == '-');
        }
        lemma_replace_after(a1, b, pat, rep);
        assert(s.skip(1) =~= a1 + b);
        assert(seq![s[0]] + (a1 + replace_all(b, pat, rep)) =~= a + replace_all(b, pat, rep));
    }
}

proof fn lemma_replace_keeps_dash(w: Seq<char>, pat: Seq<char>)
    requires
        pat.len() > 0,
        w.len() > 0,
        w[0] == '-',
    ensures
        replace_all(w, pat, seq!['-']).len() > 0,
        replace_all(w, pat, seq!['-'])[0] == '-',
{
    if w.len() < pat.len() {
    } else if w.take(pat.len() as int) == pat {
        assert((seq!['-'] + replace_all(w.skip(pat.len() as int), pat, seq!['-']))[0] == '-');
    } else {
        assert((seq![w[0]] + replace_all(w.skip(1), pat, seq!['-']))[0] == '-');
    }
}

/// A project in a cluster other than `Other` shows a name that starts with
/// its cluster key, followed by a `-` or by nothing.
pub proof fn lemma_display_name_starts_with_cluster(slug: Seq<char>)
    requires
        cluster_of(slug) != other_cluster(),
    ensures
        cluster_of(slug).is_prefix_of(display_name_of(slug)),
        display_name_of(slug).len() == cluster_of(slug).len() || display_name_of(slug)[cluster_of(slug).len() as int]
            == '-',
{
    let act = action_marker();
    let t = strip_leading(slug, '-');
    let k = lemma_strip_leading(slug, '-');
    assert(first_occurrence(slug, act) is Some);
    let i = first_occurrence(slug, act)->Some_0;
    assert(is_first_occurrence(slug, act, i));
    assert(slug[i] == 'A') by {
        assert(slug.subrange(i, i + 7)[0] == slug[i]);
    }
    assert(i >= k);
    assert(occurs_at(t, act, i - k)) by {
        assert(t.subrange(i - k, i - k + 7) =~= slug.subrange(i, i + 7));
    }
    assert forall|j: int| 0 <= j < i - k implies !occurs_at(t, act, j) by {
        if occurs_at(t, act, j) {
            assert(slug.subrange(j + k, j + k + 7) =~= t.subrange(j, j + 7));
            assert(occurs_at(slug, act, j + k));
        }
    }
    lemma_first_occurrence_unique(t, act, i - k);
    let rest = slug.skip(i + 7);
    let cat = prefix_before(rest, '-');
    lemma_prefix_before(rest, '-');
    let p = cat.len() as int;
    let a = act + cat;
    let w = rest.skip(p);
    assert(t.skip(i - k) =~= a + w) by {
        assert(slug.subrange(i, i + 7) =~= act);
        assert(cat =~= rest.take(p));
    }
    assert(no_double_dash(a)) by {
        assert forall|j: int| 0 <= j < a.len() && #[trigger] a[j] == '-' implies j + 1 < a.len() && a[j + 1] != '-' by {
            if j >= 7 {
                assert(a[j] == cat[j - 7]);
                assert(cat[j - 7] == rest[j - 7]);
            } else {
                assert(j == 6);
                assert(a[7] == cat[0]);
                assert(cat[0] == rest[0]);
            }
        }
    }
    let p3 = seq!['-', '-', '-'];
    let p2 = seq!['-', '-'];
    let dash = seq!['-'];
    lemma_replace_after(a, w, p3, dash);
    lemma_replace_after(a, replace_all(w, p3, dash), p2, dash);
    let tail = replace_all(replace_all(w, p3, dash), p2, dash);
    assert(display_name_of(slug) == a + tail);
    assert(cluster_of(slug) == a);
    assert((a + tail).subrange(0, a.len() as int) =~= a);
    if w.len() > 0 {
        assert(w[0] == rest[p]);
        lemma_replace_keeps_dash(w, p3);
        lemma_replace_keeps_dash(replace_all(w, p3, dash), p2);
        assert((a + tail)[a.len() as int] == tail[0]);
    } else {
        assert(replace_all(w, p3, dash) == w);
        assert(tail == replace_all(w, p2, dash));
        assert(tail.len() == 0);
    }
}

} // verus!
