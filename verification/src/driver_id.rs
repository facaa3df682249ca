//! Driver identifiers: the directory names that installed drivers live in.

use vstd::prelude::*;

use crate::path::{is_parent_segment_at, is_safe_relative_path};
use crate::text::{
    chars_of, is_ascii_alphanumeric, decimal, decimal_value, id_char, is_id_char, lemma_decimal_digits, lemma_decimal_value,
    push_char, u64_to_decimal,
};

verus! {

/// An identifier that may name a driver directory: non-empty, neither `.`
/// nor `..`, and made of ASCII letters, digits, `-`, `_` and `.` only.
pub open spec fn is_safe_driver_id(s: Seq<char>) -> bool {
    &&& s.len() > 0
    &&& s != seq!['.']
    &&& s != seq!['.', '.']
    &&& forall|i: int| 0 <= i < s.len() ==> #[trigger] is_id_char(s[i])
}

/// Gives the identifier back where it is safe, and `None` otherwise.
pub fn safe_driver_id(id: &str) -> (r: Option<&str>)
    ensures
        r == (if is_safe_driver_id(id@) { Some(id) } else { None::<&str> }),
{
    let c = chars_of(id);
    let n = c.len();
    if n == 0 {
        return None;
    }
    if n == 1 && c[0] == '.' {
        assert(id@ =~= seq!['.']);
        return None;
    }
    if n == 2 && c[0] == '.' && c[1] == '.' {
        assert(id@ =~= seq!['.', '.']);
        return None;
    }
    let mut i: usize = 0;
    while i < n
        invariant
            n == c@.len(),
            c@ == id@,
            i <= n,
            forall|j: int| 0 <= j < i ==> #[trigger] is_id_char(c@[j]),
        decreases n - i,
    {
        if !id_char(c[i]) {
            return None;
        }
        i = i + 1;
    }
    assert(id@.len() != 1 || id@[0] != '.');
    assert(id@ != seq!['.']) by {
        if id@ == seq!['.'] {
            assert(id@[0] == '.');
        }
    }
    assert(id@ != seq!['.', '.']) by {
        if id@ == seq!['.', '.'] {
            assert(id@[0] == '.' && id@[1] == '.');
        }
    }
    Some(id)
}

/// The character that stands for `c` in an identifier.
pub open spec fn sanitize_char(c: char) -> char {
    if is_id_char(c) {
        c
    } else {
        '-'
    }
}

/// Characters trimmed from both ends of an identifier.
pub open spec fn is_trimmed_char(c: char) -> bool {
    c == '-' || c == '.'
}

/// `s` without its leading `-` and `.` characters.
pub open spec fn trim_start(s: Seq<char>) -> Seq<char>
    decreases s.len(),
{
    if s.len() > 0 && is_trimmed_char(s[0]) {
        trim_start(s.drop_first())
    } else {
        s
    }
}

/// `s` without its trailing `-` and `.` characters.
pub open spec fn trim_end(s: Seq<char>) -> Seq<char>
    decreases s.len(),
{
    if s.len() > 0 && is_trimmed_char(s.last()) {
        trim_end(s.drop_last())
    } else {
        s
    }
}

/// The longest identifier base, in characters.
pub const MAX_ID_BASE_CHARS: usize = 80;

/// The identifier base derived from a driver's name: every character that
/// may not appear in an identifier becomes `-`, leading and trailing `-`
/// and `.` are removed, at most the first 80 characters are kept, and
/// `driver` stands in for a base that comes out empty.
pub open spec fn id_base(name: Seq<char>) -> Seq<char> {
    let t = trim_end(trim_start(name.map_values(|c: char| sanitize_char(c))));
    let t = if t.len() > MAX_ID_BASE_CHARS { t.take(MAX_ID_BASE_CHARS as int) } else { t };
    if t.len() == 0 {
        "driver"@
    } else {
        t
    }
}

proof fn lemma_trim_start_skip(s: Seq<char>, k: int)
    requires
        0 <= k <= s.len(),
        forall|j: int| 0 <= j < k ==> #[trigger] is_trimmed_char(s[j]),
        k == s.len() || !is_trimmed_char(s[k]),
    ensures
        trim_start(s) == s.skip(k),
    decreases k,
{
    if k == 0 {
        assert(s.skip(0) =~= s);
    } else {
        assert(is_trimmed_char(s[0]));
        assert forall|j: int| 0 <= j < k - 1 implies #[trigger] is_trimmed_char(
            s.drop_first()[j],
        ) by {
            assert(s.drop_first()[j] == s[j + 1]);
        }
        lemma_trim_start_skip(s.drop_first(), k - 1);
        assert(s.drop_first().skip(k - 1) =~= s.skip(k));
    }
}

proof fn lemma_trim_end_take(s: Seq<char>, e: int)
    requires
        0 <= e <= s.len(),
        forall|j: int| e <= j < s.len() ==> #[trigger] is_trimmed_char(s[j]),
        e == 0 || !is_trimmed_char(s[e - 1]),
    ensures
        trim_end(s) == s.take(e),
    decreases s.len() - e,
{
    if e == s.len() {
        assert(s.take(e) =~= s);
    } else {
        assert(is_trimmed_char(s.last()));
        lemma_trim_end_take(s.drop_last(), e);
        assert(s.drop_last().take(e) =~= s.take(e));
    }
}

/// The identifier base for a driver name; see `id_base`.
pub fn driver_id_base(name: &str) -> (r: String)
    ensures
        r@ == id_base(name@),
{
    let src = chars_of(name);
    let n = src.len();
    let ghost mapped_spec = name@.map_values(|c: char| sanitize_char(c));
    let mut mapped: Vec<char> = Vec::new();
    let mut i: usize = 0;
    while i < n
        invariant
            n == src@.len(),
            src@ == name@,
            i <= n,
            mapped_spec == name@.map_values(|c: char| sanitize_char(c)),
            mapped@ == mapped_spec.take(i as int),
        decreases n - i,
    {
        let c = src[i];
        let m = if id_char(c) {
            c
        } else {
            '-'
        };
        mapped.push(m);
        i = i + 1;
        assert(mapped@ =~= mapped_spec.take(i as int));
    }
    assert(mapped_spec.take(n as int) =~= mapped_spec);
    let mut start: usize = 0;
    while start < n && (mapped[start] == '-' || mapped[start] == '.')
        invariant
            n == mapped@.len(),
            start <= n,
            forall|j: int| 0 <= j < start ==> #[trigger] is_trimmed_char(mapped@[j]),
        decreases n - start,
    {
        start = start + 1;
    }
    proof {
        lemma_trim_start_skip(mapped@, start as int);
    }
    let mut end: usize = n;
    while end > start && (mapped[end - 1] == '-' || mapped[end - 1] == '.')
        invariant
            n == mapped@.len(),
            start <= end <= n,
            forall|j: int| end <= j < n ==> #[trigger] is_trimmed_char(mapped@[j]),
        decreases end,
    {
        end = end - 1;
    }
    let ghost rest = mapped@.skip(start as int);
    proof {
        assert forall|j: int| end - start <= j < rest.len() implies #[trigger] is_trimmed_char(
            rest[j],
        ) by {
            assert(rest[j] == mapped@[j + start]);
        }
        if end > start {
            assert(rest[end - start - 1] == mapped@[end - 1]);
        }
        lemma_trim_end_take(rest, end - start);
    }
    let ghost trimmed = rest.take(end - start);
    let stop = if end - start > MAX_ID_BASE_CHARS {
        start + MAX_ID_BASE_CHARS
    } else {
        end
    };
    let ghost kept = if trimmed.len() > MAX_ID_BASE_CHARS {
        trimmed.take(MAX_ID_BASE_CHARS as int)
    } else {
        trimmed
    };
    if stop == start {
        return String::from_str("driver");
    }
    let mut r = String::new();
    let mut k: usize = start;
    while k < stop
        invariant
            n == mapped@.len(),
            start <= k <= stop <= end <= n,
            r@ == mapped@.subrange(start as int, k as int),
        decreases stop - k,
    {
        push_char(&mut r, mapped[k]);
        k = k + 1;
        assert(r@ =~= mapped@.subrange(start as int, k as int));
    }
    assert(kept =~= mapped@.subrange(start as int, stop as int));
    r
}

/// Candidate identifier number `suffix` for a base: the base itself, then
/// the base followed by `-` and a decimal number.
pub open spec fn id_candidate(base: Seq<char>, suffix: Option<u64>) -> Seq<char> {
    match suffix {
        None => base,
        Some(n) => base + seq!['-'] + decimal(n as nat),
    }
}

/// A candidate identifier; the installer tries the base first and then
/// the suffixes 2, 3, ... until the name is free.
pub fn driver_id_candidate(base: &str, suffix: Option<u64>) -> (r: String)
    ensures
        r@ == id_candidate(base@, suffix),
{
    match suffix {
        None => String::from_str(base),
        Some(n) => {
            let mut r = String::from_str(base);
            push_char(&mut r, '-');
            let d = u64_to_decimal(n);
            r.append(d.as_str());
            r
        },
    }
}


proof fn lemma_trim_start_is_suffix(s: Seq<char>) -> (k: int)
    ensures
        0 <= k <= s.len(),
        trim_start(s) == s.skip(k),
        trim_start(s).len() > 0 ==> !is_trimmed_char(trim_start(s)[0]),
    decreases s.len(),
{
    if s.len() > 0 && is_trimmed_char(s[0]) {
        let k = lemma_trim_start_is_suffix(s.drop_first());
        assert(s.drop_first().skip(k) =~= s.skip(k + 1));
        k + 1
    } else {
        assert(s.skip(0) =~= s);
        0
    }
}

proof fn lemma_trim_end_is_prefix(s: Seq<char>) -> (e: int)
    ensures
        0 <= e <= s.len(),
        trim_end(s) == s.take(e),
        trim_end(s).len() > 0 ==> !is_trimmed_char(trim_end(s).last()),
    decreases s.len(),
{
    if s.len() > 0 && is_trimmed_char(s.last()) {
        let e = lemma_trim_end_is_prefix(s.drop_last());
        assert(s.drop_last().take(e) =~= s.take(e));
        e
    } else {
        assert(s.take(s.len() as int) =~= s);
        s.len() as int
    }
}

/// Identifier characters (ASCII letters and digits, `-`, `_` and `.`) stand
/// for themselves; every other character becomes `-`.
pub proof fn lemma_sanitize_char(c: char)
    ensures
        (is_ascii_alphanumeric(c) || c == '-' || c == '_' || c == '.') ==> sanitize_char(c) == c,
        !(is_ascii_alphanumeric(c) || c == '-' || c == '_' || c == '.') ==> sanitize_char(c)
            == '-',
{
}

/// A name made of identifier characters that neither starts nor ends with
/// `-` or `.` keeps every character: its identifier base is the name, cut
/// to its first 80 characters.
pub proof fn lemma_id_base_of_clean_name(name: Seq<char>)
    requires
        0 < name.len(),
        forall|i: int|
            0 <= i < name.len() ==> is_ascii_alphanumeric(#[trigger] name[i]) || name[i] == '-'
                || name[i] == '_' || name[i] == '.',
        name[0] != '-' && name[0] != '.',
        name.last() != '-' && name.last() != '.',
    ensures
        id_base(name) == (if name.len() > MAX_ID_BASE_CHARS {
            name.take(MAX_ID_BASE_CHARS as int)
        } else {
            name
        }),
{
    lemma_id_base_trims_ends(Seq::empty(), name, Seq::empty());
    assert(Seq::<char>::empty() + name + Seq::<char>::empty() =~= name);
}

/// Leading and trailing runs of `-` and `.` are dropped from a name and
/// nothing else around a clean core is: the base of such a name is the
/// core (cut to its first 80 characters).
pub proof fn lemma_id_base_trims_ends(pre: Seq<char>, core: Seq<char>, post: Seq<char>)
    requires
        0 < core.len(),
        forall|i: int|
            0 <= i < core.len() ==> is_ascii_alphanumeric(#[trigger] core[i]) || core[i] == '-'
                || core[i] == '_' || core[i] == '.',
        core[0] != '-' && core[0] != '.',
        core.last() != '-' && core.last() != '.',
        forall|i: int| 0 <= i < pre.len() ==> #[trigger] pre[i] == '-' || pre[i] == '.',
        forall|i: int| 0 <= i < post.len() ==> #[trigger] post[i] == '-' || post[i] == '.',
    ensures
        id_base(pre + core + post) == (if core.len() > MAX_ID_BASE_CHARS {
            core.take(MAX_ID_BASE_CHARS as int)
        } else {
            core
        }),
{
    let name = pre + core + post;
    let m = name.map_values(|c: char| sanitize_char(c));
    assert forall|i: int| 0 <= i < name.len() implies #[trigger] m[i] == name[i] by {
        if i < pre.len() {
            assert(name[i] == pre[i]);
        } else if i < pre.len() + core.len() {
            assert(name[i] == core[i - pre.len()]);
        } else {
            assert(name[i] == post[i - pre.len() - core.len()]);
        }
        lemma_sanitize_char(name[i]);
    }
    assert(m =~= name);
    assert forall|j: int| 0 <= j < pre.len() implies #[trigger] is_trimmed_char(m[j]) by {
        assert(m[j] == pre[j]);
    }
    assert(m[pre.len() as int] == core[0]);
    lemma_trim_start_skip(m, pre.len() as int);
    let rest = m.skip(pre.len() as int);
    assert(rest =~= core + post);
    assert forall|j: int| core.len() <= j < rest.len() implies #[trigger] is_trimmed_char(rest[j]) by {
        assert(rest[j] == post[j - core.len()]);
    }
    assert(rest[core.len() - 1] == core.last());
    lemma_trim_end_take(rest, core.len() as int);
    assert(rest.take(core.len() as int) =~= core);
}

/// The shape of every identifier base: between 1 and 80 characters, each
/// allowed in an identifier, and not starting with `-` or `.`.
pub proof fn lemma_id_base_shape(name: Seq<char>)
    ensures
        0 < id_base(name).len() <= MAX_ID_BASE_CHARS,
        forall|i: int| 0 <= i < id_base(name).len() ==> #[trigger] is_id_char(id_base(name)[i]),
        !is_trimmed_char(id_base(name)[0]),
{
    let m = name.map_values(|c: char| sanitize_char(c));
    let k = lemma_trim_start_is_suffix(m);
    let t1 = trim_start(m);
    let e = lemma_trim_end_is_prefix(t1);
    let t2 = trim_end(t1);
    assert forall|i: int| 0 <= i < t2.len() implies #[trigger] is_id_char(t2[i]) by {
        assert(t2[i] == m[i + k]);
        assert(m[i + k] == sanitize_char(name[i + k]));
    }
    if t2.len() > 0 {
        assert(t2[0] == t1[0]);
    }
    let t3 = if t2.len() > MAX_ID_BASE_CHARS {
        t2.take(MAX_ID_BASE_CHARS as int)
    } else {
        t2
    };
    if t3.len() == 0 {
        reveal_strlit("driver");
        assert(id_base(name) == "driver"@);
    } else {
        assert(id_base(name) == t3);
        assert(t3[0] == t2[0]);
        assert forall|i: int| 0 <= i < t3.len() implies #[trigger] is_id_char(t3[i]) by {
            assert(t3[i] == t2[i]);
        }
    }
}

/// Every identifier that the installer can choose for a driver, the base
/// or the base with a numeric suffix, is accepted by `safe_driver_id`: a
/// driver that was installed can always be removed by its identifier.
pub proof fn lemma_generated_ids_are_safe(name: Seq<char>, suffix: Option<u64>)
    ensures
        is_safe_driver_id(id_candidate(id_base(name), suffix)),
{
    lemma_id_base_shape(name);
    let b = id_base(name);
    let c = id_candidate(b, suffix);
    assert(c.len() > 0 && c[0] == b[0]);
    assert(c != seq!['.']) by {
        if c == seq!['.'] {
            assert(c[0] == '.');
        }
    }
    assert(c != seq!['.', '.']) by {
        if c == seq!['.', '.'] {
            assert(c[0] == '.');
        }
    }
    match suffix {
        None => {},
        Some(n) => {
            lemma_decimal_digits(n as nat);
            let d = decimal(n as nat);
            assert forall|i: int| 0 <= i < c.len() implies #[trigger] is_id_char(c[i]) by {
                if i < b.len() {
                    assert(c[i] == b[i]);
                } else if i == b.len() {
                    assert(c[i] == '-');
                } else {
                    assert(c[i] == d[i - b.len() - 1]);
                }
            }
        },
    }
}

/// Different suffixes give different candidates, so the installer's
/// search for a free identifier tries a new name at every step.
pub proof fn lemma_candidates_distinct(base: Seq<char>, a: Option<u64>, b: Option<u64>)
    requires
        a != b,
    ensures
        id_candidate(base, a) != id_candidate(base, b),
{
    match (a, b) {
        (Some(x), Some(y)) => {
            let ca = id_candidate(base, a);
            let cb = id_candidate(base, b);
            if ca == cb {
                let p: int = base.len() as int + 1;
                assert(ca.skip(p) =~= decimal(x as nat));
                assert(cb.skip(p) =~= decimal(y as nat));
                lemma_decimal_value(x as nat);
                lemma_decimal_value(y as nat);
                assert(decimal_value(decimal(x as nat)) == decimal_value(decimal(y as nat)));
            }
        },
        (Some(x), None) => {
            lemma_decimal_digits(x as nat);
            assert(id_candidate(base, a).len() > base.len());
        },
        (None, Some(y)) => {
            lemma_decimal_digits(y as nat);
            assert(id_candidate(base, b).len() > base.len());
        },
        (None, None) => {},
    }
}


/// The suffix of the installer's attempt `k`: none at first, then 2, 3, ...
pub open spec fn attempt_suffix(k: nat) -> Option<u64> {
    if k == 0 {
        None
    } else {
        Some((k + 1) as u64)
    }
}

/// Whether `s` is one of the names in `taken`.
pub open spec fn is_taken(taken: Seq<String>, s: Seq<char>) -> bool {
    exists|i: int| 0 <= i < taken.len() && (#[trigger] taken[i])@ == s
}

/// Whether `s` is one of the names in `taken`.
pub fn is_taken_name(taken: &Vec<String>, s: &String) -> (r: bool)
    ensures
        r == is_taken(taken@, s@),
{
    let mut i: usize = 0;
    while i < taken.len()
        invariant
            i <= taken.len(),
            forall|j: int| 0 <= j < i ==> (#[trigger] taken@[j])@ != s@,
        decreases taken.len() - i,
    {
        if taken[i] == *s {
            assert(taken@[i as int]@ == s@);
            return true;
        }
        i = i + 1;
    }
    false
}

/// The identifier under which a driver called `name` is installed, next to
/// the names already present (`taken`): the first of the candidates for
/// its base, in the order `attempt_suffix` gives, that is not taken. The
/// search ends after at most `taken.len() + 1` candidates. (`taken` is one
/// shorter than the largest `usize`, which every vector in memory is.)
pub fn unique_driver_id(name: &str, taken: &Vec<String>) -> (r: String)
    requires
        taken@.len() < usize::MAX,
    ensures
        exists|k: nat|
            #![trigger attempt_suffix(k)]
            k <= taken@.len() && r@ == id_candidate(id_base(name@), attempt_suffix(k)) && !is_taken(
                taken@,
                r@,
            ) && forall|j: nat|
                j < k ==> is_taken(
                    taken@,
                    #[trigger] id_candidate(id_base(name@), attempt_suffix(j)),
                ),
        is_safe_driver_id(r@),
        !is_taken(taken@, r@),
{
    broadcast use vstd::seq_lib::seq_to_set_is_finite;

    let base = driver_id_base(name);
    let mut candidate = driver_id_candidate(base.as_str(), None);
    let mut k: usize = 0;
    let ghost views = taken@.map_values(|s: String| s@);
    let ghost mut tried: Set<Seq<char>> = Set::empty();
    while is_taken_name(taken, &candidate)
        invariant
            k <= taken@.len() < usize::MAX,
            base@ == id_base(name@),
            candidate@ == id_candidate(base@, attempt_suffix(k as nat)),
            views == taken@.map_values(|s: String| s@),
            tried.finite(),
            tried.len() == k,
            tried.subset_of(views.to_set()),
            forall|j: nat|
                j < k ==> is_taken(taken@, #[trigger] id_candidate(base@, attempt_suffix(j))),
            forall|s: Seq<char>|
                tried.contains(s) ==> exists|j: nat|
                    j < k && s == #[trigger] id_candidate(base@, attempt_suffix(j)),
        decreases taken@.len() - k,
    {
        proof {
            let c = candidate@;
            assert(!tried.contains(c)) by {
                if tried.contains(c) {
                    let j = choose|j: nat| j < k && c == #[trigger] id_candidate(base@, attempt_suffix(j));
                    lemma_candidates_distinct(base@, attempt_suffix(j), attempt_suffix(k as nat));
                }
            }
            assert(views.to_set().contains(c)) by {
                let i = choose|i: int| 0 <= i < taken@.len() && (#[trigger] taken@[i])@ == c;
                assert(views[i] == c);
            }
            let old_tried = tried;
            tried = tried.insert(c);
            assert forall|s: Seq<char>| tried.contains(s) implies exists|j: nat|
                j < k + 1 && s == #[trigger] id_candidate(base@, attempt_suffix(j)) by {
                if s != c {
                    assert(old_tried.contains(s));
                }
            }
            vstd::set_lib::lemma_len_subset(tried, views.to_set());
            views.lemma_cardinality_of_set();
        }
        k = k + 1;
        candidate = driver_id_candidate(base.as_str(), Some((k as u64) + 1));
    }
    proof {
        lemma_generated_ids_are_safe(name@, attempt_suffix(k as nat));
    }
    candidate
}


/// A safe identifier, joined to the drivers directory, names an entry
/// directly inside it: it is a safe relative path with no separator.
pub proof fn lemma_safe_id_is_single_component(id: Seq<char>)
    requires
        is_safe_driver_id(id),
    ensures
        is_safe_relative_path(id),
        forall|i: int| 0 <= i < id.len() ==> #[trigger] id[i] != '/',
{
    assert forall|i: int| 0 <= i < id.len() implies #[trigger] id[i] != '/' by {
        assert(is_id_char(id[i]));
    }
    assert(id[0] != '/');
    if id[0] == '.' && (id.len() == 1 || id[1] == '/') {
        assert(id =~= seq!['.']);
    }
    assert forall|i: int| !#[trigger] is_parent_segment_at(id, i) by {
        if is_parent_segment_at(id, i) {
            if i > 0 {
                assert(id[i - 1] == '/');
            } else if i + 2 < id.len() {
                assert(id[i + 2] == '/');
            } else {
                assert(id =~= seq!['.', '.']);
            }
        }
    }
}

} // verus!
