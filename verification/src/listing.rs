//! The list of installed drivers: which directories count as installed
//! drivers, and the order in which they are shown.

use vstd::prelude::*;

use crate::metadata::{DriverMetadata, InstalledDriver};
use crate::path::{is_safe_relative_path, safe_relative_path};
use crate::text::{
    chars_of, push_char, lemma_lex_le_antisymmetric, lemma_lex_le_total, lemma_lex_le_transitive, lex_le, lex_le_chars, lowercase,
    to_lowercase,
};

verus! {

/// What the caller found out about one entry of the drivers directory.
#[derive(Debug)]
pub struct DriverCandidate {
    /// The entry's file name.
    pub id: String,
    /// Whether the entry is a directory.
    pub is_dir: bool,
    /// The directory's metadata, where its `meta.json` could be read.
    pub metadata: Option<DriverMetadata>,
    /// Whether the library that the metadata names is a file in the
    /// directory (consulted only where the library name is a safe path).
    pub library_present: bool,
}

/// A directory counts as an installed driver when it has readable
/// metadata whose library name is a safe relative path to a file that is
/// present.
pub open spec fn is_listed(c: DriverCandidate) -> bool {
    &&& c.is_dir
    &&& c.metadata is Some
    &&& is_safe_relative_path(c.metadata->Some_0.library_name@)
    &&& c.library_present
}

/// The installed driver that a listed candidate stands for.
pub open spec fn listed_driver(c: DriverCandidate) -> InstalledDriver {
    InstalledDriver { id: c.id, metadata: c.metadata->Some_0 }
}

/// The listed candidates, as installed drivers, in the order found.
pub open spec fn listed_drivers(cs: Seq<DriverCandidate>) -> Seq<InstalledDriver>
    decreases cs.len(),
{
    if cs.len() == 0 {
        Seq::empty()
    } else if is_listed(cs.last()) {
        listed_drivers(cs.drop_last()).push(listed_driver(cs.last()))
    } else {
        listed_drivers(cs.drop_last())
    }
}

/// The key that the list is ordered by: the driver's name in lower case.
pub open spec fn sort_key(d: InstalledDriver) -> Seq<char> {
    lowercase(d.metadata.name@)
}

/// `out` is `inp` rearranged by the permutation `p` (`out[i]` is
/// `inp[p[i]]`) into ascending order of `sort_key`, with drivers of equal
/// keys kept in their order in `inp`.
pub open spec fn is_stable_sort(out: Seq<InstalledDriver>, inp: Seq<InstalledDriver>, p: Seq<int>) -> bool {
    &&& p.len() == inp.len()
    &&& out.len() == inp.len()
    &&& forall|i: int| 0 <= i < p.len() ==> 0 <= #[trigger] p[i] < inp.len() && out[i] == inp[p[i]]
    &&& forall|i: int, j: int| #![trigger p[i], p[j]] 0 <= i < j < p.len() ==> p[i] != p[j]
    &&& forall|i: int, j: int|
        #![trigger out[i], out[j]]
        0 <= i < j < out.len() ==> lex_le(sort_key(out[i]), sort_key(out[j]))
    &&& forall|i: int, j: int|
        #![trigger p[i], p[j]]
        0 <= i < j < out.len() && sort_key(out[i]) == sort_key(out[j]) ==> p[i] < p[j]
}

/// A stably sorted list runs in ascending order of the drivers' names in
/// lower case, and drivers whose lower-case names are equal keep the order
/// they had in `inp`.
pub proof fn lemma_sorted_by_lowercase_name(out: Seq<InstalledDriver>, inp: Seq<InstalledDriver>)
    requires
        is_stably_sorted(out, inp),
    ensures
        forall|i: int, j: int|
            #![trigger out[i], out[j]]
            0 <= i < j < out.len() ==> lex_le(
                lowercase(out[i].metadata.name@),
                lowercase(out[j].metadata.name@),
            ),
        exists|p: Seq<int>|
            {
                &&& p.len() == out.len()
                &&& out.len() == inp.len()
                &&& forall|i: int|
                    0 <= i < p.len() ==> 0 <= #[trigger] p[i] < inp.len() && out[i] == inp[p[i]]
                &&& forall|i: int, j: int|
                    #![trigger p[i], p[j]]
                    0 <= i < j < out.len() && lowercase(out[i].metadata.name@) == lowercase(
                        out[j].metadata.name@,
                    ) ==> p[i] < p[j]
            },
{
    let p = choose|p: Seq<int>| is_stable_sort(out, inp, p);
    assert forall|i: int, j: int|
        #![trigger out[i], out[j]]
        0 <= i < j < out.len() implies lex_le(
        lowercase(out[i].metadata.name@),
        lowercase(out[j].metadata.name@),
    ) by {
        assert(lex_le(sort_key(out[i]), sort_key(out[j])));
    }
    assert forall|i: int, j: int|
        #![trigger p[i], p[j]]
        0 <= i < j < out.len() && lowercase(out[i].metadata.name@) == lowercase(
            out[j].metadata.name@,
        ) implies p[i] < p[j] by {
        assert(sort_key(out[i]) == sort_key(out[j]));
    }
}

/// `out` is `inp` in stable ascending order of `sort_key`.
pub open spec fn is_stably_sorted(out: Seq<InstalledDriver>, inp: Seq<InstalledDriver>) -> bool {
    exists|p: Seq<int>| is_stable_sort(out, inp, p)
}

proof fn lemma_insert_keeps_stable_sort(
    out: Seq<InstalledDriver>,
    inp: Seq<InstalledDriver>,
    p: Seq<int>,
    pos: int,
    d: InstalledDriver,
)
    requires
        is_stable_sort(out, inp, p),
        0 <= pos <= out.len(),
        forall|j: int| 0 <= j < pos ==> lex_le(#[trigger] sort_key(out[j]), sort_key(d)),
        pos < out.len() ==> !lex_le(sort_key(out[pos]), sort_key(d)),
    ensures
        is_stable_sort(out.insert(pos, d), inp.push(d), p.insert(pos, inp.len() as int)),
{
    let n = inp.len() as int;
    let out2 = out.insert(pos, d);
    let inp2 = inp.push(d);
    let p2 = p.insert(pos, n);
    let k = sort_key(d);
    assert forall|i: int| 0 <= i < p2.len() implies 0 <= #[trigger] p2[i] < inp2.len() && out2[i]
        == inp2[p2[i]] by {
        if i < pos {
            assert(p2[i] == p[i]);
        } else if i > pos {
            assert(p2[i] == p[i - 1]);
        }
    }
    assert forall|i: int, j: int| #![trigger p2[i], p2[j]] 0 <= i < j < p2.len() implies p2[i]
        != p2[j] by {
        if i != pos && j != pos {
            let oi = if i < pos { i } else { i - 1 };
            let oj = if j < pos { j } else { j - 1 };
            assert(p2[i] == p[oi] && p2[j] == p[oj]);
            assert(p[oi] != p[oj]);
        } else if i == pos {
            assert(p2[j] == p[j - 1]);
        } else {
            assert(p2[i] == p[i]);
        }
    }
    if pos < out.len() {
        lemma_lex_le_total(sort_key(out[pos]), k);
    }
    assert forall|i: int, j: int| #![trigger out2[i], out2[j]] 0 <= i < j < out2.len() implies lex_le(
        sort_key(out2[i]),
        sort_key(out2[j]),
    ) by {
        if i != pos && j != pos {
            let oi = if i < pos { i } else { i - 1 };
            let oj = if j < pos { j } else { j - 1 };
            assert(out2[i] == out[oi] && out2[j] == out[oj]);
            assert(lex_le(sort_key(out[oi]), sort_key(out[oj])));
        } else if j == pos {
            assert(out2[i] == out[i]);
        } else {
            assert(out2[j] == out[j - 1]);
            if j - 1 > pos {
                assert(lex_le(sort_key(out[pos]), sort_key(out[j - 1])));
                lemma_lex_le_transitive(k, sort_key(out[pos]), sort_key(out[j - 1]));
            }
        }
    }
    assert forall|i: int, j: int|
        #![trigger p2[i], p2[j]]
        0 <= i < j < out2.len() && sort_key(out2[i]) == sort_key(out2[j]) implies p2[i] < p2[j] by {
        if i != pos && j != pos {
            let oi = if i < pos { i } else { i - 1 };
            let oj = if j < pos { j } else { j - 1 };
            assert(out2[i] == out[oi] && out2[j] == out[oj]);
            assert(p2[i] == p[oi] && p2[j] == p[oj]);
            assert(p[oi] < p[oj]);
        } else if j == pos {
            assert(p2[i] == p[i]);
        } else {
            assert(out2[j] == out[j - 1]);
            if j - 1 > pos {
                assert(lex_le(sort_key(out[pos]), sort_key(out[j - 1])));
            }
            assert(lex_le(sort_key(out[pos]), k));
        }
    }
}

proof fn lemma_listed_drivers_step(cs: Seq<DriverCandidate>, i: int)
    requires
        0 <= i < cs.len(),
    ensures
        listed_drivers(cs.take(i + 1)) == if is_listed(cs[i]) {
            listed_drivers(cs.take(i)).push(listed_driver(cs[i]))
        } else {
            listed_drivers(cs.take(i))
        },
{
    assert(cs.take(i + 1).drop_last() =~= cs.take(i));
    assert(cs.take(i + 1).last() == cs[i]);
}

/// The installed drivers among the candidates: those that `is_listed`
/// accepts, in stable ascending order of their lower-case names.
pub fn select_installed(candidates: &Vec<DriverCandidate>) -> (r: Vec<InstalledDriver>)
    ensures
        is_stably_sorted(r@, listed_drivers(candidates@)),
        forall|i: int, j: int|
            #![trigger r@[i], r@[j]]
            0 <= i < j < r@.len() ==> lex_le(
                lowercase(r@[i].metadata.name@),
                lowercase(r@[j].metadata.name@),
            ),
{
    let mut out: Vec<InstalledDriver> = Vec::new();
    let mut keys: Vec<Vec<char>> = Vec::new();
    let ghost mut p: Seq<int> = Seq::empty();
    let mut i: usize = 0;
    assert(candidates@.take(0) =~= Seq::<DriverCandidate>::empty());
    while i < candidates.len()
        invariant
            i <= candidates.len(),
            is_stable_sort(out@, listed_drivers(candidates@.take(i as int)), p),
            keys@.len() == out@.len(),
            forall|j: int| 0 <= j < keys@.len() ==> (#[trigger] keys@[j])@ == sort_key(out@[j]),
        decreases candidates.len() - i,
    {
        proof {
            lemma_listed_drivers_step(candidates@, i as int);
        }
        let c = &candidates[i];
        if c.is_dir && c.library_present {
            match &c.metadata {
                Some(m) => {
                    if safe_relative_path(m.library_name.as_str()).is_some() {
                        let d = InstalledDriver { id: c.id.clone(), metadata: m.duplicate() };
                        assert(d == listed_driver(candidates@[i as int]));
                        let lower = to_lowercase(m.name.as_str());
                        let key = chars_of(lower.as_str());
                        let mut pos: usize = 0;
                        while pos < keys.len() && lex_le_chars(&keys[pos], &key)
                            invariant
                                pos <= keys@.len(),
                                keys@.len() == out@.len(),
                                key@ == sort_key(d),
                                forall|j: int|
                                    0 <= j < keys@.len() ==> (#[trigger] keys@[j])@ == sort_key(
                                        out@[j],
                                    ),
                                forall|j: int|
                                    0 <= j < pos ==> lex_le(#[trigger] sort_key(out@[j]), key@),
                            decreases keys@.len() - pos,
                        {
                            assert(keys@[pos as int]@ == sort_key(out@[pos as int]));
                            pos = pos + 1;
                        }
                        if pos < keys.len() {
                            assert(keys@[pos as int]@ == sort_key(out@[pos as int]));
                        }
                        proof {
                            lemma_insert_keeps_stable_sort(
                                out@,
                                listed_drivers(candidates@.take(i as int)),
                                p,
                                pos as int,
                                d,
                            );
                            p = p.insert(pos as int, out@.len() as int);
                        }
                        let ghost old_out = out@;
                        let ghost old_keys = keys@;
                        out.insert(pos, d);
                        keys.insert(pos, key);
                        assert forall|j: int| 0 <= j < keys@.len() implies (
                        #[trigger] keys@[j])@ == sort_key(out@[j]) by {
                            if j < pos {
                                assert(keys@[j] == old_keys[j] && out@[j] == old_out[j]);
                            } else if j > pos {
                                assert(keys@[j] == old_keys[j - 1] && out@[j] == old_out[j - 1]);
                            }
                        }
                    }
                },
                None => {},
            }
        }
        i = i + 1;
    }
    assert(candidates@.take(candidates@.len() as int) =~= candidates@);
    proof {
        lemma_sorted_by_lowercase_name(out@, listed_drivers(candidates@));
    }
    out
}


/// `k` is the first position of a driver with identifier `id`.
pub open spec fn is_first_with_id(ds: Seq<InstalledDriver>, id: Seq<char>, k: int) -> bool {
    &&& 0 <= k < ds.len()
    &&& ds[k].id@ == id
    &&& forall|q: int| 0 <= q < k ==> (#[trigger] ds[q]).id@ != id
}

/// The first position of a driver with identifier `id`, if any.
pub open spec fn first_with_id(ds: Seq<InstalledDriver>, id: Seq<char>) -> Option<int> {
    if exists|k: int| is_first_with_id(ds, id, k) {
        Some(choose|k: int| is_first_with_id(ds, id, k))
    } else {
        None
    }
}

proof fn lemma_first_with_id_unique(ds: Seq<InstalledDriver>, id: Seq<char>, k: int)
    requires
        is_first_with_id(ds, id, k),
    ensures
        first_with_id(ds, id) == Some(k),
{
    let c = choose|c: int| is_first_with_id(ds, id, c);
    assert(is_first_with_id(ds, id, c));
    if c < k {
        assert(ds[c].id@ != id);
    } else if k < c {
        assert(ds[k].id@ != id);
    }
}

/// Whether two strings hold the same text.
pub fn same_text(a: &str, b: &str) -> (r: bool)
    ensures
        r == (a@ == b@),
{
    String::from_str(a) == String::from_str(b)
}

/// The position of the first driver whose identifier is `id`.
pub fn find_driver(drivers: &Vec<InstalledDriver>, id: &str) -> (r: Option<usize>)
    ensures
        match r {
            Some(k) => first_with_id(drivers@, id@) == Some(k as int),
            None => first_with_id(drivers@, id@) is None,
        },
{
    let mut k: usize = 0;
    while k < drivers.len()
        invariant
            k <= drivers.len(),
            forall|q: int| 0 <= q < k ==> (#[trigger] drivers@[q]).id@ != id@,
        decreases drivers.len() - k,
    {
        if same_text(drivers[k].id.as_str(), id) {
            proof {
                lemma_first_with_id_unique(drivers@, id@, k as int);
            }
            return Some(k);
        }
        k = k + 1;
    }
    assert forall|c: int| !is_first_with_id(drivers@, id@, c) by {
        if 0 <= c < drivers@.len() {
            assert(drivers@[c].id@ != id@);
        }
    }
    None
}

/// The name shown for the device's own Vulkan driver.
pub open spec fn system_driver_name() -> Seq<char> {
    "System Vulkan driver"@
}

/// The details shown for the device's own Vulkan driver.
pub open spec fn system_driver_details() -> Seq<char> {
    "Uses the Vulkan driver supplied by the device manufacturer."@
}

/// The version shown for a driver: its driver version, or its package
/// version where the driver version is empty.
pub open spec fn shown_version(m: DriverMetadata) -> Seq<char> {
    if m.driver_version@.len() == 0 {
        m.package_version@
    } else {
        m.driver_version@
    }
}

/// The lines of a driver's details: the author, the version and the
/// description, each only where it is not empty.
pub open spec fn details_lines(m: DriverMetadata) -> Seq<Seq<char>> {
    (if m.author@.len() > 0 {
        seq!["Author: "@ + m.author@]
    } else {
        Seq::empty()
    }) + (if shown_version(m).len() > 0 {
        seq!["Version: "@ + shown_version(m)]
    } else {
        Seq::empty()
    }) + (if m.description@.len() > 0 {
        seq![m.description@]
    } else {
        Seq::empty()
    })
}

/// Lines joined with a newline between each two.
pub open spec fn join_lines(lines: Seq<Seq<char>>) -> Seq<char>
    decreases lines.len(),
{
    if lines.len() == 0 {
        Seq::empty()
    } else if lines.len() == 1 {
        lines[0]
    } else {
        join_lines(lines.drop_last()) + seq!['\n'] + lines.last()
    }
}

/// The text describing an installed driver.
pub open spec fn details_text(m: DriverMetadata) -> Seq<char> {
    join_lines(details_lines(m))
}

/// `line` appears in `text` starting at index `i`.
pub open spec fn occurs_at(text: Seq<char>, line: Seq<char>, i: int) -> bool {
    0 <= i && i + line.len() <= text.len() && text.subrange(i, i + line.len()) == line
}

/// Every line appears, as it is, in the joined text.
pub proof fn lemma_join_lines_contains(lines: Seq<Seq<char>>, k: int)
    requires
        0 <= k < lines.len(),
    ensures
        exists|i: int| #[trigger] occurs_at(join_lines(lines), lines[k], i),
    decreases lines.len(),
{
    let t = join_lines(lines);
    if lines.len() == 1 {
        assert(t.subrange(0, lines[0].len() as int) =~= lines[0]);
        assert(occurs_at(t, lines[k], 0));
    } else {
        let prev = join_lines(lines.drop_last());
        assert(t == prev + seq!['\n'] + lines.last());
        if k == lines.len() - 1 {
            let i: int = prev.len() as int + 1;
            assert(t.subrange(i, i + lines[k].len()) =~= lines[k]);
            assert(occurs_at(t, lines[k], i));
        } else {
            lemma_join_lines_contains(lines.drop_last(), k);
            assert(lines.drop_last()[k] == lines[k]);
            let i = choose|i: int| #[trigger] occurs_at(prev, lines[k], i);
            assert(t.subrange(i, i + lines[k].len()) =~= prev.subrange(i, i + lines[k].len()));
            assert(occurs_at(t, lines[k], i));
        }
    }
}

/// The lines of a driver's details: the author line first where there is
/// an author, then a version line where the driver version or the package
/// version is not empty, showing the driver version where it is not empty
/// and the package version otherwise, then the description where it is
/// not empty; and each of these lines appears in the details text.
pub proof fn lemma_details_content(m: DriverMetadata)
    ensures
        details_lines(m).len() == (if m.author@.len() > 0 {
            1int
        } else {
            0int
        }) + (if m.driver_version@.len() > 0 || m.package_version@.len() > 0 {
            1int
        } else {
            0int
        }) + (if m.description@.len() > 0 {
            1int
        } else {
            0int
        }),
        m.author@.len() > 0 ==> details_lines(m)[0] == "Author: "@ + m.author@,
        m.driver_version@.len() > 0 ==> details_lines(m).contains("Version: "@ + m.driver_version@),
        m.driver_version@.len() == 0 && m.package_version@.len() > 0 ==> details_lines(m).contains(
            "Version: "@ + m.package_version@,
        ),
        m.description@.len() > 0 ==> details_lines(m).last() == m.description@,
        forall|k: int|
            #![trigger details_lines(m)[k]]
            0 <= k < details_lines(m).len() ==> exists|i: int|
                #[trigger] occurs_at(details_text(m), details_lines(m)[k], i),
        m.driver_version@.len() > 0 ==> exists|i: int|
            #[trigger] occurs_at(details_text(m), "Version: "@ + m.driver_version@, i),
{
    let l = details_lines(m);
    let a: Seq<Seq<char>> = if m.author@.len() > 0 {
        seq!["Author: "@ + m.author@]
    } else {
        Seq::empty()
    };
    let v: Seq<Seq<char>> = if shown_version(m).len() > 0 {
        seq!["Version: "@ + shown_version(m)]
    } else {
        Seq::empty()
    };
    let d: Seq<Seq<char>> = if m.description@.len() > 0 {
        seq![m.description@]
    } else {
        Seq::empty()
    };
    assert(l == a + v + d);
    if shown_version(m).len() > 0 {
        assert(l[a.len() as int] == "Version: "@ + shown_version(m));
        lemma_join_lines_contains(l, a.len() as int);
        let i = choose|i: int| #[trigger] occurs_at(join_lines(l), l[a.len() as int], i);
        assert(occurs_at(details_text(m), "Version: "@ + shown_version(m), i));
        assert(l.contains("Version: "@ + shown_version(m)));
    }
    assert forall|k: int| #![trigger l[k]] 0 <= k < l.len() implies exists|i: int|
        #[trigger] occurs_at(details_text(m), l[k], i) by {
        lemma_join_lines_contains(l, k);
        let i = choose|i: int| #[trigger] occurs_at(join_lines(l), l[k], i);
        assert(occurs_at(details_text(m), l[k], i));
    }
}

/// Joins lines with a newline between each two.
pub fn join_with_newlines(lines: &Vec<String>) -> (r: String)
    ensures
        r@ == join_lines(lines@.map_values(|s: String| s@)),
{
    let ghost views = lines@.map_values(|s: String| s@);
    let mut r = String::new();
    let mut i: usize = 0;
    assert(views.take(0) =~= Seq::<Seq<char>>::empty());
    while i < lines.len()
        invariant
            i <= lines.len(),
            views == lines@.map_values(|s: String| s@),
            r@ == join_lines(views.take(i as int)),
        decreases lines.len() - i,
    {
        assert(views.take(i + 1).drop_last() =~= views.take(i as int));
        assert(views.take(i + 1).last() == lines@[i as int]@);
        if i > 0 {
            push_char(&mut r, '\n');
        } else {
            assert(views.take(1) =~= seq![lines@[0]@]);
        }
        r.append(lines[i].as_str());
        i = i + 1;
    }
    assert(views.take(lines.len() as int) =~= views);
    r
}

/// The details text for a driver's metadata.
pub fn driver_details(m: &DriverMetadata) -> (r: String)
    ensures
        r@ == details_text(*m),
{
    let ghost f = |s: String| s@;
    let ghost author_part: Seq<Seq<char>> = if m.author@.len() > 0 {
        seq!["Author: "@ + m.author@]
    } else {
        Seq::empty()
    };
    let ghost version_part: Seq<Seq<char>> = if shown_version(*m).len() > 0 {
        seq!["Version: "@ + shown_version(*m)]
    } else {
        Seq::empty()
    };
    let ghost description_part: Seq<Seq<char>> = if m.description@.len() > 0 {
        seq![m.description@]
    } else {
        Seq::empty()
    };
    let mut lines: Vec<String> = Vec::new();
    if !m.author.as_str().is_empty() {
        let mut line = String::from_str("Author: ");
        line.append(m.author.as_str());
        lines.push(line);
    }
    assert(lines@.map_values(f) =~= author_part);
    let version = if m.driver_version.as_str().is_empty() {
        m.package_version.as_str()
    } else {
        m.driver_version.as_str()
    };
    let ghost before = lines@.map_values(f);
    if !version.is_empty() {
        let mut line = String::from_str("Version: ");
        line.append(version);
        lines.push(line);
    }
    assert(lines@.map_values(f) =~= before + version_part);
    let ghost before = lines@.map_values(f);
    if !m.description.as_str().is_empty() {
        lines.push(m.description.clone());
    }
    assert(lines@.map_values(f) =~= before + description_part);
    assert(lines@.map_values(|s: String| s@) =~= details_lines(*m));
    join_with_newlines(&lines)
}

/// The details shown for row `index` of the driver picker, whose rows have
/// the identifiers `ids` (an empty identifier is the device's own driver):
/// nothing for a row that does not exist or a driver that is not
/// installed.
pub open spec fn details_for(ids: Seq<Seq<char>>, index: int, installed: Seq<InstalledDriver>) -> Seq<
    char,
> {
    if index < 0 || index >= ids.len() {
        Seq::empty()
    } else if ids[index].len() == 0 {
        system_driver_details()
    } else {
        match first_with_id(installed, ids[index]) {
            Some(k) => details_text(installed[k].metadata),
            None => Seq::empty(),
        }
    }
}

/// The details text for row `index` of the driver picker.
pub fn details_for_index(ids: &Vec<String>, index: i32, installed: &Vec<InstalledDriver>) -> (r:
    String)
    ensures
        r@ == details_for(ids@.map_values(|s: String| s@), index as int, installed@),
{
    if index < 0 || index as usize >= ids.len() {
        return String::new();
    }
    let id = ids[index as usize].as_str();
    if id.is_empty() {
        return String::from_str("Uses the Vulkan driver supplied by the device manufacturer.");
    }
    match find_driver(installed, id) {
        Some(k) => driver_details(&installed[k].metadata),
        None => String::new(),
    }
}

/// The rows of the driver picker.
#[derive(Debug)]
pub struct DriverListModel {
    /// The names shown, the device's own driver first.
    pub names: Vec<String>,
    /// The identifiers of the rows; the device's own driver has the empty one.
    pub ids: Vec<String>,
    /// The row that is selected.
    pub selected_index: i32,
}

/// The identifiers of the picker's rows for a list of drivers.
pub open spec fn picker_ids(drivers: Seq<InstalledDriver>) -> Seq<Seq<char>> {
    seq![Seq::<char>::empty()] + drivers.map_values(|d: InstalledDriver| d.id@)
}

/// The names of the picker's rows for a list of drivers.
pub open spec fn picker_names(drivers: Seq<InstalledDriver>) -> Seq<Seq<char>> {
    seq![system_driver_name()] + drivers.map_values(|d: InstalledDriver| d.metadata.name@)
}

/// The selected row: the one after the first driver whose identifier is
/// the selected one, or the device's own driver.
pub open spec fn picker_selection(drivers: Seq<InstalledDriver>, selected_id: Seq<char>) -> i32 {
    match first_with_id(drivers, selected_id) {
        Some(k) => (k + 1) as i32,
        None => 0,
    }
}

/// The rows of the driver picker for the installed drivers, with the row of
/// `selected_id` selected.
pub fn driver_list_model(drivers: &Vec<InstalledDriver>, selected_id: &str) -> (r: DriverListModel)
    ensures
        r.names@.map_values(|s: String| s@) == picker_names(drivers@),
        r.ids@.map_values(|s: String| s@) == picker_ids(drivers@),
        r.selected_index == picker_selection(drivers@, selected_id@),
{
    let mut names: Vec<String> = Vec::new();
    let mut ids: Vec<String> = Vec::new();
    names.push(String::from_str("System Vulkan driver"));
    ids.push(String::new());
    assert(names@.map_values(|s: String| s@) =~= picker_names(drivers@.take(0)));
    assert(ids@.map_values(|s: String| s@) =~= picker_ids(drivers@.take(0)));
    let mut i: usize = 0;
    while i < drivers.len()
        invariant
            i <= drivers.len(),
            names@.map_values(|s: String| s@) == picker_names(drivers@.take(i as int)),
            ids@.map_values(|s: String| s@) == picker_ids(drivers@.take(i as int)),
        decreases drivers.len() - i,
    {
        let ghost d = drivers@[i as int];
        let ghost old_names = names@;
        let ghost old_ids = ids@;
        names.push(drivers[i].metadata.name.clone());
        ids.push(drivers[i].id.clone());
        proof {
            let f = |s: String| s@;
            let g = |x: InstalledDriver| x.metadata.name@;
            let h = |x: InstalledDriver| x.id@;
            assert(names@.map_values(f) =~= old_names.map_values(f).push(d.metadata.name@));
            assert(ids@.map_values(f) =~= old_ids.map_values(f).push(d.id@));
            assert(drivers@.take(i + 1).map_values(g) =~= drivers@.take(i as int).map_values(
                g,
            ).push(d.metadata.name@));
            assert(drivers@.take(i + 1).map_values(h) =~= drivers@.take(i as int).map_values(
                h,
            ).push(d.id@));
            assert(names@.map_values(f) =~= picker_names(drivers@.take(i + 1)));
            assert(ids@.map_values(f) =~= picker_ids(drivers@.take(i + 1)));
        }
        i = i + 1;
    }
    assert(drivers@.take(drivers.len() as int) =~= drivers@);
    let selected_index = match find_driver(drivers, selected_id) {
        Some(k) => #[verifier::truncate]
        ((k + 1) as i32),
        None => 0,
    };
    DriverListModel { names, ids, selected_index }
}


/// `d` is the installed driver of some listed candidate among `cs`.
pub open spec fn comes_from_listed(d: InstalledDriver, cs: Seq<DriverCandidate>) -> bool {
    exists|j: int| 0 <= j < cs.len() && is_listed(#[trigger] cs[j]) && d == listed_driver(cs[j])
}

proof fn lemma_listed_drivers_come_from_listed(cs: Seq<DriverCandidate>)
    ensures
        forall|i: int|
            0 <= i < listed_drivers(cs).len() ==> comes_from_listed(
                #[trigger] listed_drivers(cs)[i],
                cs,
            ),
    decreases cs.len(),
{
    if cs.len() > 0 {
        let rest = cs.drop_last();
        lemma_listed_drivers_come_from_listed(rest);
        let l = listed_drivers(cs);
        assert forall|i: int| 0 <= i < l.len() implies comes_from_listed(#[trigger] l[i], cs) by {
            if i < listed_drivers(rest).len() {
                assert(comes_from_listed(listed_drivers(rest)[i], rest));
                let j = choose|j: int|
                    0 <= j < rest.len() && is_listed(#[trigger] rest[j]) && listed_drivers(rest)[i]
                        == listed_driver(rest[j]);
                assert(cs[j] == rest[j]);
                assert(l[i] == listed_drivers(rest)[i]);
            } else {
                assert(cs[cs.len() - 1] == cs.last());
                assert(l[i] == listed_driver(cs[cs.len() - 1]));
            }
        }
    }
}

/// Every driver in the list comes from a candidate directory that has
/// metadata, a safe library name and that library present.
pub proof fn lemma_installed_drivers_are_valid(out: Seq<InstalledDriver>, cs: Seq<DriverCandidate>)
    requires
        is_stably_sorted(out, listed_drivers(cs)),
    ensures
        forall|i: int| 0 <= i < out.len() ==> comes_from_listed(#[trigger] out[i], cs),
        forall|i: int|
            0 <= i < out.len() ==> is_safe_relative_path(#[trigger] out[i].metadata.library_name@),
{
    let p = choose|p: Seq<int>| is_stable_sort(out, listed_drivers(cs), p);
    lemma_listed_drivers_come_from_listed(cs);
    assert forall|i: int| 0 <= i < out.len() implies comes_from_listed(#[trigger] out[i], cs) by {
        assert(out[i] == listed_drivers(cs)[p[i]]);
    }
    assert forall|i: int| 0 <= i < out.len() implies is_safe_relative_path(
        #[trigger] out[i].metadata.library_name@,
    ) by {
        assert(comes_from_listed(out[i], cs));
        let j = choose|j: int|
            0 <= j < cs.len() && is_listed(#[trigger] cs[j]) && out[i] == listed_driver(cs[j]);
    }
}

/// The picker shows, for the row it selects, the details of the selected
/// driver where that driver is installed, and the system driver's details
/// otherwise (for a non-empty selected identifier, and a list short enough
/// for its positions to fit the picker's `i32` index).
pub proof fn lemma_selected_row_details(drivers: Seq<InstalledDriver>, selected_id: Seq<char>)
    requires
        selected_id.len() > 0,
        drivers.len() < 0x7fff_ffff,
    ensures
        details_for(picker_ids(drivers), picker_selection(drivers, selected_id) as int, drivers)
            == match first_with_id(drivers, selected_id) {
            Some(k) => details_text(drivers[k].metadata),
            None => system_driver_details(),
        },
        first_with_id(drivers, selected_id) is Some ==> picker_ids(drivers)[picker_selection(
            drivers,
            selected_id,
        ) as int] == selected_id,
        first_with_id(drivers, selected_id) is None ==> picker_selection(drivers, selected_id) == 0,
{
    let ids = picker_ids(drivers);
    match first_with_id(drivers, selected_id) {
        Some(k) => {
            let c = choose|c: int| is_first_with_id(drivers, selected_id, c);
            assert(is_first_with_id(drivers, selected_id, c));
            assert(k == c);
            assert(ids[k + 1] == drivers[k].id@);
            assert(picker_selection(drivers, selected_id) as int == k + 1);
            lemma_first_with_id_unique(drivers, selected_id, k);
        },
        None => {
            assert(ids[0] == Seq::<char>::empty());
        },
    }
}


proof fn lemma_permutation_onto(p: Seq<int>, t: int)
    requires
        forall|i: int| 0 <= i < p.len() ==> 0 <= #[trigger] p[i] < p.len(),
        forall|i: int, j: int| #![trigger p[i], p[j]] 0 <= i < j < p.len() ==> p[i] != p[j],
        0 <= t < p.len(),
    ensures
        exists|i: int| 0 <= i < p.len() && p[i] == t,
{
    broadcast use vstd::seq_lib::seq_to_set_is_finite;

    assert(p.no_duplicates()) by {
        assert forall|i: int, j: int|
            0 <= i < p.len() && 0 <= j < p.len() && i != j implies p[i] != p[j] by {
            if i < j {
                assert(p[i] != p[j]);
            } else {
                assert(p[j] != p[i]);
            }
        }
    }
    p.unique_seq_to_set();
    vstd::set_lib::lemma_int_range(0, p.len() as int);
    let r = vstd::set_lib::set_int_range(0, p.len() as int);
    assert(p.to_set().subset_of(r)) by {
        assert forall|x: int| p.to_set().contains(x) implies r.contains(x) by {
            assert(p.contains(x));
            let i = choose|i: int| 0 <= i < p.len() && p[i] == x;
            assert(0 <= p[i] < p.len());
        }
    }
    vstd::set_lib::lemma_subset_equality(p.to_set(), r);
    assert(r.contains(t));
    assert(p.to_set().contains(t));
    assert(p.contains(t));
}

proof fn lemma_last_is_greatest(out: Seq<InstalledDriver>, inp: Seq<InstalledDriver>, p: Seq<int>, t: int)
    requires
        is_stable_sort(out, inp, p),
        inp.len() > 0,
        0 <= t < inp.len(),
    ensures
        lex_le(sort_key(inp[t]), sort_key(inp[p[inp.len() - 1]])),
        sort_key(inp[t]) == sort_key(inp[p[inp.len() - 1]]) ==> t <= p[inp.len() - 1],
{
    let n = inp.len() as int;
    lemma_permutation_onto(p, t);
    let i = choose|i: int| 0 <= i < p.len() && p[i] == t;
    assert(0 <= p[n - 1] < n);
    assert(out[n - 1] == inp[p[n - 1]]);
    assert(out[i] == inp[p[i]]);
    if i < n - 1 {
        assert(lex_le(sort_key(out[i]), sort_key(out[n - 1])));
        if sort_key(out[i]) == sort_key(out[n - 1]) {
            assert(p[i] < p[n - 1]);
        }
    } else {
        lemma_lex_le_total(sort_key(inp[t]), sort_key(inp[t]));
    }
}

proof fn lemma_stable_sort_drop_last(out: Seq<InstalledDriver>, inp: Seq<InstalledDriver>, p: Seq<int>)
    requires
        is_stable_sort(out, inp, p),
        inp.len() > 0,
    ensures
        is_stable_sort(
            out.drop_last(),
            inp.remove(p[inp.len() - 1]),
            p.drop_last().map_values(|x: int| if x > p[inp.len() - 1] { x - 1 } else { x }),
        ),
{
    let n = inp.len() as int;
    let a = p[n - 1];
    let f = |x: int| if x > a { x - 1 } else { x };
    let o2 = out.drop_last();
    let i2 = inp.remove(a);
    let p2 = p.drop_last().map_values(f);
    assert(0 <= a < n);
    assert forall|i: int| 0 <= i < p2.len() implies 0 <= #[trigger] p2[i] < i2.len() && o2[i]
        == i2[p2[i]] by {
        assert(p2[i] == f(p[i]));
        assert(0 <= p[i] < n);
        assert(p[i] != a);
        assert(o2[i] == out[i]);
        assert(out[i] == inp[p[i]]);
    }
    assert forall|i: int, j: int| #![trigger p2[i], p2[j]] 0 <= i < j < p2.len() implies p2[i]
        != p2[j] by {
        assert(p2[i] == f(p[i]) && p2[j] == f(p[j]));
        assert(p[i] != p[j]);
        assert(p[i] != a && p[j] != a);
    }
    assert forall|i: int, j: int| #![trigger o2[i], o2[j]] 0 <= i < j < o2.len() implies lex_le(
        sort_key(o2[i]),
        sort_key(o2[j]),
    ) by {
        assert(o2[i] == out[i] && o2[j] == out[j]);
        assert(lex_le(sort_key(out[i]), sort_key(out[j])));
    }
    assert forall|i: int, j: int|
        #![trigger p2[i], p2[j]]
        0 <= i < j < o2.len() && sort_key(o2[i]) == sort_key(o2[j]) implies p2[i] < p2[j] by {
        assert(o2[i] == out[i] && o2[j] == out[j]);
        assert(p2[i] == f(p[i]) && p2[j] == f(p[j]));
        assert(p[i] < p[j]);
        assert(p[i] != a && p[j] != a);
    }
}

proof fn lemma_stable_sort_unique_with(
    o1: Seq<InstalledDriver>,
    o2: Seq<InstalledDriver>,
    inp: Seq<InstalledDriver>,
    p1: Seq<int>,
    p2: Seq<int>,
)
    requires
        is_stable_sort(o1, inp, p1),
        is_stable_sort(o2, inp, p2),
    ensures
        o1 == o2,
    decreases inp.len(),
{
    let n = inp.len() as int;
    if n == 0 {
        assert(o1 =~= o2);
    } else {
        let a = p1[n - 1];
        let b = p2[n - 1];
        assert(0 <= a < n && 0 <= b < n);
        lemma_last_is_greatest(o1, inp, p1, b);
        lemma_last_is_greatest(o2, inp, p2, a);
        lemma_lex_le_antisymmetric(sort_key(inp[a]), sort_key(inp[b]));
        assert(a == b);
        lemma_stable_sort_drop_last(o1, inp, p1);
        lemma_stable_sort_drop_last(o2, inp, p2);
        lemma_stable_sort_unique_with(
            o1.drop_last(),
            o2.drop_last(),
            inp.remove(a),
            p1.drop_last().map_values(|x: int| if x > a { x - 1 } else { x }),
            p2.drop_last().map_values(|x: int| if x > a { x - 1 } else { x }),
        );
        assert(o1[n - 1] == inp[a] && o2[n - 1] == inp[a]);
        assert(o1 =~= o2.drop_last().push(o2[n - 1]));
        assert(o2 =~= o2.drop_last().push(o2[n - 1]));
    }
}

/// There is only one stable ordering of a list by `sort_key`, so the
/// contract of `select_installed` fixes its result.
pub proof fn lemma_stable_sort_unique(o1: Seq<InstalledDriver>, o2: Seq<InstalledDriver>, inp: Seq<
    InstalledDriver,
>)
    requires
        is_stably_sorted(o1, inp),
        is_stably_sorted(o2, inp),
    ensures
        o1 == o2,
{
    let p1 = choose|p: Seq<int>| is_stable_sort(o1, inp, p);
    let p2 = choose|p: Seq<int>| is_stable_sort(o2, inp, p);
    lemma_stable_sort_unique_with(o1, o2, inp, p1, p2);
}


proof fn lemma_listed_drivers_complete(cs: Seq<DriverCandidate>, j: int)
    requires
        0 <= j < cs.len(),
        is_listed(cs[j]),
    ensures
        listed_drivers(cs).contains(listed_driver(cs[j])),
    decreases cs.len(),
{
    let rest = cs.drop_last();
    if j == cs.len() - 1 {
        assert(cs.last() == cs[j]);
        let l = listed_drivers(cs);
        assert(l[l.len() - 1] == listed_driver(cs[j]));
    } else {
        assert(rest[j] == cs[j]);
        lemma_listed_drivers_complete(rest, j);
        let l = listed_drivers(rest);
        let k = choose|k: int| 0 <= k < l.len() && l[k] == listed_driver(cs[j]);
        if is_listed(cs.last()) {
            assert(listed_drivers(cs)[k] == l[k]);
        }
    }
}

/// No installed driver is left out: every candidate that `is_listed`
/// accepts is in the list.
pub proof fn lemma_installed_drivers_complete(out: Seq<InstalledDriver>, cs: Seq<DriverCandidate>, j: int)
    requires
        is_stably_sorted(out, listed_drivers(cs)),
        0 <= j < cs.len(),
        is_listed(cs[j]),
    ensures
        out.contains(listed_driver(cs[j])),
{
    let inp = listed_drivers(cs);
    let p = choose|p: Seq<int>| is_stable_sort(out, inp, p);
    lemma_listed_drivers_complete(cs, j);
    let t = choose|t: int| 0 <= t < inp.len() && inp[t] == listed_driver(cs[j]);
    lemma_permutation_onto(p, t);
    let i = choose|i: int| 0 <= i < p.len() && p[i] == t;
    assert(out[i] == inp[p[i]]);
}

} // verus!
