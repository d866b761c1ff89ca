//! Citation marker formatters and their request model.

use vstd::prelude::*;
use vstd::string::StringExecFns;

use crate::display::DisplayString;
use crate::numbers::decimal_digits;
use crate::numbers::usize_to_string;

verus! {

/// Describes where the output string of a [`CitationFormatter`] should be
/// set: inside the text or in a footnote.
#[derive(Copy, Clone, Debug, PartialEq, Eq, Structural)]
pub enum CitationMode {
    /// Set citation text in a footnote. Only produce a superscript footnote
    /// symbol at the matching position of the text.
    Footnote,
    /// The citation text should be set directly where the text appears.
    InText,
}

/// Raised if a user-specified citation is not possible with the given
/// database.
#[derive(Clone, Debug, PartialEq, Eq)]
pub enum CitationError {
    /// A key could not be found in the citation database.
    KeyNotFound(String),
    /// A number was required for this citation format but not found.
    NoNumber(String),
}

/// Represents a citation of one database entry.
#[derive(Clone, Debug)]
pub struct AtomicCitation {
    /// Cited entry key.
    pub key: String,
    /// Supplement for the entry key such as a page or chapter number.
    pub supplement: Option<String>,
    /// Assigned number of the citation.
    pub number: Option<usize>,
}

/// Structs that implement this can be used to generate bibliography
/// references for sources.
pub trait BibliographyFormatter {
    /// The bibliography entry type of the embedding application; this core
    /// never looks inside it.
    type Entry;

    /// Get a string with optional formatting that describes the entry in
    /// accordance with the implementing struct's style.
    fn get_reference(&self, entry: &Self::Entry, prev_entry: Option<&Self::Entry>) -> DisplayString;
}

/// Structs implementing this trait can generate the appropriate reference
/// markers for a single citation. They do not have to see subsequent
/// citations to determine the marker value.
pub trait CitationFormatter {
    /// Get a reference marker for the passed citations.
    fn get_reference(&self, citation: &Vec<AtomicCitation>) -> Result<String, CitationError>;
}

/// Is the key `k` one of the known entry keys?
pub open spec fn key_present(keys: Seq<String>, k: Seq<char>) -> bool {
    exists|i: int| 0 <= i < keys.len() && (#[trigger] keys[i])@ == k
}

/// Every cited key is a known entry key.
pub open spec fn all_keys_present(keys: Seq<String>, cs: Seq<AtomicCitation>) -> bool {
    forall|i: int| 0 <= i < cs.len() ==> key_present(keys, (#[trigger] cs[i]).key@)
}

/// The key-based formatter fails at index `i` with key `k`: the key of
/// item `i` is unknown, every key before it is known.
pub open spec fn key_error_at(keys: Seq<String>, cs: Seq<AtomicCitation>, i: int, k: Seq<char>) -> bool {
    &&& 0 <= i < cs.len()
    &&& !key_present(keys, cs[i].key@)
    &&& k == cs[i].key@
    &&& forall|j: int| 0 <= j < i ==> key_present(keys, (#[trigger] cs[j]).key@)
}

/// What an error of the key-based formatter means at index `i`: it is
/// `KeyNotFound(k)` where `k` is the first cited key that is unknown.
pub open spec fn key_error_matches(
    keys: Seq<String>,
    cs: Seq<AtomicCitation>,
    i: int,
    e: CitationError,
) -> bool {
    match e {
        CitationError::KeyNotFound(k) => key_error_at(keys, cs, i, k@),
        CitationError::NoNumber(_) => false,
    }
}

/// How the key-based formatter prints one item: the key, followed by the
/// supplement in parentheses when there is one.
pub open spec fn key_item(c: AtomicCitation) -> Seq<char> {
    match c.supplement {
        Some(sup) => c.key@ + " ("@ + sup@ + ")"@,
        None => c.key@,
    }
}

/// The key-based marker: the items printed in input order, joined with
/// a comma and a space.
pub open spec fn key_marker(cs: Seq<AtomicCitation>) -> Seq<char>
    decreases cs.len(),
{
    if cs.len() == 0 {
        Seq::empty()
    } else if cs.len() == 1 {
        key_item(cs[0])
    } else {
        key_marker(cs.drop_last()) + ", "@ + key_item(cs.last())
    }
}

/// Does `keys` contain a key whose characters are `k`'s?
#[verifier::loop_isolation(false)]
fn contains_key(keys: &Vec<String>, k: &String) -> (r: bool)
    ensures
        r == key_present(keys@, k@),
{
    let n = keys.len();
    let mut i: usize = 0;
    while i < n
        invariant
            i <= n,
            forall|j: int| 0 <= j < i ==> (#[trigger] keys@[j])@ != k@,
        decreases n - i,
    {
        if keys[i].eq(k) {
            return true;
        }
        i += 1;
    }
    false
}

/// Checks if the keys are in the database and returns them as reference
/// markers, since they are already unique.
pub struct KeyCitationFormatter {
    /// The keys of the known entries.
    pub keys: Vec<String>,
}

impl KeyCitationFormatter {
    /// Creates a formatter over the given set of known entry keys.
    pub fn new(keys: Vec<String>) -> (r: Self)
        ensures
            r.keys@ == keys@,
    {
        KeyCitationFormatter { keys }
    }

    /// Renders the citations as `key` or `key (supplement)`, joined with
    /// `", "`, in input order; fails with `KeyNotFound` on the first item
    /// whose key is unknown, producing no partial marker.
    #[verifier::loop_isolation(false)]
    #[verifier::rlimit(60)]
    pub fn get_reference(&self, citation: &Vec<AtomicCitation>) -> (r: Result<
        String,
        CitationError,
    >)
        ensures
            r matches Ok(m) ==> all_keys_present(self.keys@, citation@) && m@ == key_marker(
                citation@,
            ),
            r matches Err(e) ==> exists|i: int| key_error_matches(self.keys@, citation@, i, e),
    {
        let n = citation.len();
        let mut res = String::new();
        let mut i: usize = 0;
        while i < n
            invariant
                i <= n,
                forall|j: int| 0 <= j < i ==> key_present(self.keys@, (#[trigger] citation@[j]).key@),
                res@ == key_marker(citation@.subrange(0, i as int)),
            decreases n - i,
        {
            let c = &citation[i];
            if !contains_key(&self.keys, &c.key) {
                let bad = c.key.clone();
                proof {
                    assert(key_error_matches(
                        self.keys@,
                        citation@,
                        i as int,
                        CitationError::KeyNotFound(bad),
                    ));
                }
                return Err(CitationError::KeyNotFound(bad));
            }
            if i > 0 {
                res.append(", ");
            }
            res.append(c.key.as_str());
            match &c.supplement {
                Some(sup) => {
                    res.append(" (");
                    res.append(sup.as_str());
                    res.append(")");
                },
                None => {},
            }
            proof {
                let cs = citation@;
                assert(cs.subrange(0, i as int + 1).drop_last() =~= cs.subrange(0, i as int));
                assert(cs.subrange(0, i as int + 1).last() == cs[i as int]);
                assert(res@ =~= key_marker(cs.subrange(0, i as int + 1)));
            }
            i += 1;
        }
        proof {
            assert(citation@.subrange(0, n as int) =~= citation@);
        }
        Ok(res)
    }
}

impl CitationFormatter for KeyCitationFormatter {
    fn get_reference(&self, citation: &Vec<AtomicCitation>) -> Result<String, CitationError> {
        KeyCitationFormatter::get_reference(self, citation)
    }
}

/// An item is acceptable to the numeric formatter: its key is known and it
/// carries a citation number.
pub open spec fn item_ok(keys: Seq<String>, c: AtomicCitation) -> bool {
    key_present(keys, c.key@) && c.number is Some
}

/// Every item is acceptable to the numeric formatter.
pub open spec fn all_items_ok(keys: Seq<String>, cs: Seq<AtomicCitation>) -> bool {
    forall|i: int| 0 <= i < cs.len() ==> item_ok(keys, #[trigger] cs[i])
}

/// The numeric formatter fails at index `i` with `KeyNotFound(k)`: the key
/// of item `i` is unknown, every item before it is acceptable.
pub open spec fn numeric_key_error_at(
    keys: Seq<String>,
    cs: Seq<AtomicCitation>,
    i: int,
    k: Seq<char>,
) -> bool {
    &&& 0 <= i < cs.len()
    &&& !key_present(keys, cs[i].key@)
    &&& k == cs[i].key@
    &&& forall|j: int| 0 <= j < i ==> item_ok(keys, #[trigger] cs[j])
}

/// The numeric formatter fails at index `i` with `NoNumber(k)`: the key of
/// item `i` is known but it has no number, every item before it is
/// acceptable.
pub open spec fn no_number_error_at(
    keys: Seq<String>,
    cs: Seq<AtomicCitation>,
    i: int,
    k: Seq<char>,
) -> bool {
    &&& 0 <= i < cs.len()
    &&& key_present(keys, cs[i].key@)
    &&& cs[i].number is None
    &&& k == cs[i].key@
    &&& forall|j: int| 0 <= j < i ==> item_ok(keys, #[trigger] cs[j])
}

/// What an error of the numeric formatter means at index `i`:
/// `KeyNotFound(k)` for the first unacceptable item when its key is
/// unknown, `NoNumber(k)` for it when its key is known but it has no
/// number.
pub open spec fn numeric_error_matches(
    keys: Seq<String>,
    cs: Seq<AtomicCitation>,
    i: int,
    e: CitationError,
) -> bool {
    match e {
        CitationError::KeyNotFound(k) => numeric_key_error_at(keys, cs, i, k@),
        CitationError::NoNumber(k) => no_number_error_at(keys, cs, i, k@),
    }
}

/// The number of an item; meaningful only when one is assigned.
pub open spec fn spec_number_of(c: AtomicCitation) -> usize {
    match c.number {
        Some(nb) => nb,
        None => 0,
    }
}

/// The (number, supplement) pairs of the citations, in input order.
pub open spec fn pairs_of(cs: Seq<AtomicCitation>) -> Seq<(usize, Option<String>)> {
    cs.map_values(|c: AtomicCitation| (spec_number_of(c), c.supplement))
}

/// Inserts `e` into `s` behind every pair whose number is at most `e`'s:
/// the insertion step of a stable ascending sort.
pub open spec fn insert_asc(
    s: Seq<(usize, Option<String>)>,
    e: (usize, Option<String>),
) -> Seq<(usize, Option<String>)>
    decreases s.len(),
{
    if s.len() == 0 {
        seq![e]
    } else if s[0].0 <= e.0 {
        seq![s[0]] + insert_asc(s.drop_first(), e)
    } else {
        seq![e] + s
    }
}

/// Stable sort of the pairs by number, lowest first; the supplement is not
/// part of the sort key.
pub open spec fn sort_asc(s: Seq<(usize, Option<String>)>) -> Seq<(usize, Option<String>)>
    decreases s.len(),
{
    if s.len() == 0 {
        Seq::empty()
    } else {
        insert_asc(sort_asc(s.drop_last()), s.last())
    }
}

/// When the first `j` pairs of `s` have numbers at most `e`'s and the
/// `j`-th (if any) has a greater one, inserting `e` stably lands exactly at
/// index `j`.
proof fn lemma_insert_asc_at(s: Seq<(usize, Option<String>)>, e: (usize, Option<String>), j: int)
    requires
        0 <= j <= s.len(),
        forall|k: int| 0 <= k < j ==> (#[trigger] s[k]).0 <= e.0,
        j < s.len() ==> s[j].0 > e.0,
    ensures
        insert_asc(s, e) == s.insert(j, e),
    decreases j,
{
    if j == 0 {
        if s.len() == 0 {
            assert(insert_asc(s, e) =~= s.insert(0, e));
        } else {
            assert(s[0].0 > e.0);
            assert(insert_asc(s, e) =~= s.insert(0, e));
        }
    } else {
        assert(s[0].0 <= e.0);
        lemma_insert_asc_at(s.drop_first(), e, j - 1);
        assert(insert_asc(s, e) == seq![s[0]] + s.drop_first().insert(j - 1, e));
        assert(seq![s[0]] + s.drop_first().insert(j - 1, e) =~= s.insert(j, e));
    }
}

/// One display element of a numeric marker.
#[derive(Clone, Debug, PartialEq, Eq)]
pub enum CiteElement {
    /// A contiguous inclusive range of citation numbers.
    Range(usize, usize),
    /// A single citation number together with its supplement.
    Single(usize, Option<String>),
}

/// One step of the compaction pass: a supplemented pair always becomes a
/// standalone single; an unsupplemented number extends the last element
/// when that element is a range ending right below it, and otherwise opens
/// a fresh one-number range.
pub open spec fn compact_step(acc: Seq<CiteElement>, n: usize, sup: Option<String>) -> Seq<
    CiteElement,
> {
    match sup {
        Some(s) => acc.push(CiteElement::Single(n, Some(s))),
        None => {
            if acc.len() > 0 {
                match acc.last() {
                    CiteElement::Range(lo, hi) => {
                        if hi + 1 == n {
                            acc.drop_last().push(CiteElement::Range(lo, n))
                        } else {
                            acc.push(CiteElement::Range(n, n))
                        }
                    },
                    CiteElement::Single(_, _) => acc.push(CiteElement::Range(n, n)),
                }
            } else {
                acc.push(CiteElement::Range(n, n))
            }
        },
    }
}

/// The compaction pass over `pairs`, left to right, starting from `acc`.
pub open spec fn compact_from(pairs: Seq<(usize, Option<String>)>, acc: Seq<CiteElement>) -> Seq<
    CiteElement,
>
    decreases pairs.len(),
{
    if pairs.len() == 0 {
        acc
    } else {
        compact_from(pairs.drop_first(), compact_step(acc, pairs[0].0, pairs[0].1))
    }
}

/// Processing one more pair at the end of the input applies one more
/// compaction step to the result.
proof fn lemma_compact_snoc(
    pairs: Seq<(usize, Option<String>)>,
    acc: Seq<CiteElement>,
    e: (usize, Option<String>),
)
    ensures
        compact_from(pairs.push(e), acc) == compact_step(compact_from(pairs, acc), e.0, e.1),
    decreases pairs.len(),
{
    if pairs.len() == 0 {
        assert(pairs.push(e)[0] == e);
        assert(pairs.push(e).drop_first() =~= Seq::<(usize, Option<String>)>::empty());
        assert(compact_from(Seq::<(usize, Option<String>)>::empty(), compact_step(acc, e.0, e.1))
            == compact_step(acc, e.0, e.1));
        assert(compact_from(pairs, acc) == acc);
    } else {
        assert(pairs.push(e)[0] == pairs[0]);
        assert(pairs.push(e).drop_first() =~= pairs.drop_first().push(e));
        lemma_compact_snoc(pairs.drop_first(), compact_step(acc, pairs[0].0, pairs[0].1), e);
    }
}

/// How one display element prints: a one-number range as the bare number, a
/// wider range as `start-end`, a single as `number, supplement`.
pub open spec fn render_element(e: CiteElement) -> Seq<char> {
    match e {
        CiteElement::Range(lo, hi) => {
            if lo == hi {
                decimal_digits(lo as int)
            } else {
                decimal_digits(lo as int) + "-"@ + decimal_digits(hi as int)
            }
        },
        CiteElement::Single(n, sup) => {
            match sup {
                Some(s) => decimal_digits(n as int) + ", "@ + s@,
                None => decimal_digits(n as int),
            }
        },
    }
}

/// The display elements printed in order, joined with `"; "`.
pub open spec fn render_elements(s: Seq<CiteElement>) -> Seq<char>
    decreases s.len(),
{
    if s.len() == 0 {
        Seq::empty()
    } else if s.len() == 1 {
        render_element(s[0])
    } else {
        render_elements(s.drop_last()) + "; "@ + render_element(s.last())
    }
}

/// The whole numeric marker for the given (number, supplement) pairs: the
/// pairs stably sorted by number, compacted, rendered, and wrapped in
/// square brackets.
pub open spec fn numeric_marker(pairs: Seq<(usize, Option<String>)>) -> Seq<char> {
    "["@ + render_elements(compact_from(sort_asc(pairs), Seq::empty())) + "]"@
}

/// Outputs IEEE-style numerical reference markers.
pub struct NumericalCitationFormatter {
    /// The keys of the known entries.
    pub keys: Vec<String>,
}

impl NumericalCitationFormatter {
    /// Creates a formatter over the given set of known entry keys.
    pub fn new(keys: Vec<String>) -> (r: Self)
        ensures
            r.keys@ == keys@,
    {
        NumericalCitationFormatter { keys }
    }

    /// Renders the citations as a compact numeric marker such as
    /// `[1-3; 5, p.9]`. Fails on the first unacceptable item in input
    /// order, producing no partial marker: `KeyNotFound` when its key is
    /// unknown, else `NoNumber` when it has no assigned number.
    #[verifier::loop_isolation(false)]
    #[verifier::rlimit(60)]
    pub fn get_reference(&self, citation: &Vec<AtomicCitation>) -> (r: Result<
        String,
        CitationError,
    >)
        ensures
            r matches Ok(m) ==> all_items_ok(self.keys@, citation@) && m@ == numeric_marker(
                pairs_of(citation@),
            ),
            r matches Err(e) ==> exists|i: int|
                numeric_error_matches(self.keys@, citation@, i, e),
    {
        let n = citation.len();
        let mut ids: Vec<(usize, Option<String>)> = Vec::new();
        let mut i: usize = 0;
        while i < n
            invariant
                i <= n,
                forall|j: int| 0 <= j < i ==> item_ok(self.keys@, #[trigger] citation@[j]),
                ids@ == pairs_of(citation@.subrange(0, i as int)),
            decreases n - i,
        {
            let c = &citation[i];
            if !contains_key(&self.keys, &c.key) {
                let bad = c.key.clone();
                proof {
                    assert(numeric_error_matches(
                        self.keys@,
                        citation@,
                        i as int,
                        CitationError::KeyNotFound(bad),
                    ));
                }
                return Err(CitationError::KeyNotFound(bad));
            }
            let number = match c.number {
                Some(nb) => nb,
                None => {
                    let bad = c.key.clone();
                    proof {
                        assert(numeric_error_matches(
                            self.keys@,
                            citation@,
                            i as int,
                            CitationError::NoNumber(bad),
                        ));
                    }
                    return Err(CitationError::NoNumber(bad));
                },
            };
            let sup = match &c.supplement {
                Some(s) => Some(s.clone()),
                None => None,
            };
            ids.push((number, sup));
            proof {
                let cs = citation@;
                assert(cs.subrange(0, i as int + 1) =~= cs.subrange(0, i as int).push(
                    cs[i as int],
                ));
                assert(ids@ =~= pairs_of(cs.subrange(0, i as int + 1)));
            }
            i += 1;
        }
        proof {
            assert(citation@.subrange(0, n as int) =~= citation@);
        }
        let np = ids.len();
        let mut sorted: Vec<(usize, Option<String>)> = Vec::new();
        let mut i: usize = 0;
        while i < np
            invariant
                i <= np,
                sorted@ == sort_asc(ids@.subrange(0, i as int)),
            decreases np - i,
        {
            let e_sup = match &ids[i].1 {
                Some(s) => Some(s.clone()),
                None => None,
            };
            let e = (ids[i].0, e_sup);
            let mut j: usize = 0;
            while j < sorted.len() && sorted[j].0 <= e.0
                invariant
                    j <= sorted@.len(),
                    forall|k: int| 0 <= k < j ==> (#[trigger] sorted@[k]).0 <= e.0,
                decreases sorted@.len() - j,
            {
                j += 1;
            }
            proof {
                assert(e == ids@[i as int]);
                lemma_insert_asc_at(sorted@, e, j as int);
                assert(ids@.subrange(0, i as int + 1).drop_last() =~= ids@.subrange(0, i as int));
                assert(ids@.subrange(0, i as int + 1).last() == ids@[i as int]);
            }
            sorted.insert(j, e);
            i += 1;
        }
        proof {
            assert(ids@.subrange(0, np as int) =~= ids@);
        }
        let ns = sorted.len();
        let mut res_elems: Vec<CiteElement> = Vec::new();
        let mut i: usize = 0;
        while i < ns
            invariant
                i <= ns,
                res_elems@ == compact_from(sorted@.subrange(0, i as int), Seq::<CiteElement>::empty()),
            decreases ns - i,
        {
            let number = sorted[i].0;
            let supplement = match &sorted[i].1 {
                Some(s) => Some(s.clone()),
                None => None,
            };
            proof {
                assert((number, supplement) == sorted@[i as int]);
                assert(sorted@.subrange(0, i as int + 1) =~= sorted@.subrange(0, i as int).push(
                    sorted@[i as int],
                ));
                lemma_compact_snoc(
                    sorted@.subrange(0, i as int),
                    Seq::<CiteElement>::empty(),
                    sorted@[i as int],
                );
            }
            match supplement {
                Some(s) => {
                    res_elems.push(CiteElement::Single(number, Some(s)));
                },
                None => {
                    let l = res_elems.len();
                    let mut merged = false;
                    let mut lo_v: usize = 0;
                    if l > 0 {
                        match &res_elems[l - 1] {
                            CiteElement::Range(lo, hi) => {
                                if *hi < number && number - *hi == 1 {
                                    lo_v = *lo;
                                    merged = true;
                                }
                            },
                            CiteElement::Single(_, _) => {},
                        }
                    }
                    if merged {
                        proof {
                            assert(res_elems@.subrange(0, l - 1 as int) =~= res_elems@.drop_last());
                        }
                        res_elems.truncate(l - 1);
                        res_elems.push(CiteElement::Range(lo_v, number));
                    } else {
                        res_elems.push(CiteElement::Range(number, number));
                    }
                },
            }
            i += 1;
        }
        proof {
            assert(sorted@.subrange(0, ns as int) =~= sorted@);
        }
        let ne = res_elems.len();
        let mut body = String::new();
        let mut i: usize = 0;
        while i < ne
            invariant
                i <= ne,
                body@ == render_elements(res_elems@.subrange(0, i as int)),
            decreases ne - i,
        {
            if i > 0 {
                body.append("; ");
            }
            match &res_elems[i] {
                CiteElement::Range(lo, hi) => {
                    let lo_s = usize_to_string(*lo);
                    body.append(lo_s.as_str());
                    if *lo != *hi {
                        body.append("-");
                        let hi_s = usize_to_string(*hi);
                        body.append(hi_s.as_str());
                    }
                },
                CiteElement::Single(nb, sup) => {
                    let nb_s = usize_to_string(*nb);
                    body.append(nb_s.as_str());
                    match sup {
                        Some(s) => {
                            body.append(", ");
                            body.append(s.as_str());
                        },
                        None => {},
                    }
                },
            }
            proof {
                let elems = res_elems@;
                assert(elems.subrange(0, i as int + 1).drop_last() =~= elems.subrange(0, i as int));
                assert(elems.subrange(0, i as int + 1).last() == elems[i as int]);
                assert(body@ =~= render_elements(elems.subrange(0, i as int + 1)));
            }
            i += 1;
        }
        proof {
            assert(res_elems@.subrange(0, ne as int) =~= res_elems@);
        }
        let mut out = "[".to_owned();
        out.append(body.as_str());
        out.append("]");
        proof {
            assert(out@ =~= numeric_marker(pairs_of(citation@)));
        }
        Ok(out)
    }
}

impl CitationFormatter for NumericalCitationFormatter {
    fn get_reference(&self, citation: &Vec<AtomicCitation>) -> Result<String, CitationError> {
        NumericalCitationFormatter::get_reference(self, citation)
    }
}

} // verus!
