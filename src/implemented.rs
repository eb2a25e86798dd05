//! How an artifact is implemented, and what that contributes to its
//! completion.
use vstd::prelude::*;
use crate::order::{codes, compare_codes};
use crate::sort::SortKey;

verus! {

/// A sub-identifier: a finer-grained reference declared in an artifact's
/// text.
#[derive(Debug)]
pub struct SubName {
    pub raw: String,
}

impl Clone for SubName {
    fn clone(&self) -> (r: Self)
        ensures
            r@ == self@,
    {
        SubName { raw: self.raw.clone() }
    }
}

impl View for SubName {
    type V = Seq<char>;

    open spec fn view(&self) -> Seq<char> {
        self.raw@
    }
}

/// The location of an artifact reference in code.
#[derive(Debug)]
pub struct CodeLoc {
    pub file: String,
    pub line: u64,
}

impl View for CodeLoc {
    type V = (Seq<char>, u64);

    open spec fn view(&self) -> (Seq<char>, u64) {
        (self.file@, self.line)
    }
}

impl Clone for CodeLoc {
    fn clone(&self) -> (r: Self)
        ensures
            r@ == self@,
    {
        CodeLoc { file: self.file.clone(), line: self.line }
    }
}

impl CodeLoc {
    pub fn new(file: &String, line: u64) -> (r: CodeLoc)
        ensures
            r.file@ == file@,
            r.line == line,
    {
        CodeLoc { file: file.clone(), line }
    }
}

/// Where an artifact is implemented in code: an optional primary location,
/// and a location for each implemented sub-identifier.
#[derive(Debug)]
pub struct ImplCode {
    pub primary: Option<CodeLoc>,
    pub secondary: Vec<(SubName, CodeLoc)>,
}

/// An implementation in code as values.
pub struct ImplCodeView {
    pub primary: Option<(Seq<char>, u64)>,
    pub secondary: Seq<(Seq<char>, (Seq<char>, u64))>,
}

impl View for ImplCode {
    type V = ImplCodeView;

    open spec fn view(&self) -> ImplCodeView {
        ImplCodeView {
            primary: match self.primary {
                Some(p) => Some(p@),
                None => None,
            },
            secondary: self.secondary@.map_values(|e: (SubName, CodeLoc)| (e.0@, e.1@)),
        }
    }
}

impl Clone for ImplCode {
    fn clone(&self) -> (r: Self)
        ensures
            r@ == self@,
    {
        let primary = match &self.primary {
            Some(p) => Some(p.clone()),
            None => None,
        };
        let mut secondary: Vec<(SubName, CodeLoc)> = Vec::new();
        let mut i: usize = 0;
        while i < self.secondary.len()
            invariant
                i <= self.secondary@.len(),
                secondary@.len() == i,
                forall|j: int|
                    0 <= j < i ==> (#[trigger] secondary@[j]).0@ == self.secondary@[j].0@
                        && secondary@[j].1@ == self.secondary@[j].1@,
            decreases self.secondary@.len() - i,
        {
            let (s, l) = &self.secondary[i];
            secondary.push((s.clone(), l.clone()));
            i = i + 1;
        }
        let r = ImplCode { primary, secondary };
        assert(r@.secondary =~= self@.secondary);
        r
    }
}

/// The sub-identifiers that have a code location, in order.
pub open spec fn secondary_keys(s: Seq<(Seq<char>, (Seq<char>, u64))>) -> Seq<Seq<char>> {
    s.map_values(|e: (Seq<char>, (Seq<char>, u64))| e.0)
}

/// The implementation state of an artifact.
#[derive(Debug)]
pub enum Impl {
    /// Defined as done, for the given reason.
    Done(String),
    /// At least partly implemented in code.
    Code(ImplCode),
    /// Not implemented directly.
    NotImpl,
}

/// An implementation state as values.
pub enum ImplView {
    Done(Seq<char>),
    Code(ImplCodeView),
    NotImpl,
}

impl View for Impl {
    type V = ImplView;

    open spec fn view(&self) -> ImplView {
        match self {
            Impl::Done(s) => ImplView::Done(s@),
            Impl::Code(c) => ImplView::Code(c@),
            Impl::NotImpl => ImplView::NotImpl,
        }
    }
}

/// How many of `subs` are among `keys`.
pub open spec fn count_present(subs: Seq<Seq<char>>, keys: Seq<Seq<char>>) -> nat
    decreases subs.len(),
{
    if subs.len() == 0 {
        0
    } else {
        count_present(subs.drop_last(), keys) + if keys.contains(subs.last()) {
            1nat
        } else {
            0nat
        }
    }
}

proof fn lemma_count_present_le(subs: Seq<Seq<char>>, keys: Seq<Seq<char>>)
    ensures
        count_present(subs, keys) <= subs.len(),
    decreases subs.len(),
{
    if subs.len() > 0 {
        lemma_count_present_le(subs.drop_last(), keys);
    }
}

/// The contribution `(count, value, secondary count, secondary value)` of
/// an implementation state, given the sub-identifiers of the artifact's
/// text.
pub open spec fn statistics_of(imp: ImplView, subs: Seq<Seq<char>>) -> (nat, nat, nat, nat) {
    match imp {
        ImplView::Done(_) => (1, 1, 1, 1),
        ImplView::Code(c) => (
            1 + subs.len(),
            (if c.primary is Some {
                1nat
            } else {
                0nat
            }) + count_present(subs, secondary_keys(c.secondary)),
            0,
            0,
        ),
        ImplView::NotImpl => if subs.len() > 0 {
            (1 + subs.len(), 0, 0, 0)
        } else {
            (0, 0, 0, 0)
        },
    }
}

/// Whether a sub-identifier has a code location in `c`.
pub fn has_secondary(c: &ImplCode, sub: &SubName) -> (r: bool)
    ensures
        r == secondary_keys(c@.secondary).contains(sub@),
{
    let ghost keys = secondary_keys(c@.secondary);
    let mut i: usize = 0;
    while i < c.secondary.len()
        invariant
            i <= c.secondary@.len(),
            keys == secondary_keys(c@.secondary),
            forall|j: int| 0 <= j < i ==> keys[j] != sub@,
        decreases c.secondary@.len() - i,
    {
        if c.secondary[i].0.raw == sub.raw {
            assert(keys[i as int] == sub@);
            return true;
        }
        i = i + 1;
    }
    false
}

impl Clone for Impl {
    fn clone(&self) -> (r: Self)
        ensures
            r@ == self@,
    {
        match self {
            Impl::Done(s) => Impl::Done(s.clone()),
            Impl::Code(c) => Impl::Code(c.clone()),
            Impl::NotImpl => Impl::NotImpl,
        }
    }
}

/// The reason of a `Done` state.
pub open spec fn done_reason(imp: ImplView) -> Option<Seq<char>> {
    match imp {
        ImplView::Done(s) => Some(s),
        _ => None,
    }
}

impl Impl {
    /// The contribution of this state to the completion figures, given the
    /// artifact's sub-identifiers, each once: see `statistics_of`.
    pub fn to_statistics(&self, subnames: &Vec<SubName>) -> (r: (usize, usize, usize, usize))
        requires
            subnames@.len() < usize::MAX,
            subnames@.map_values(|s: SubName| s@).no_duplicates(),
        ensures
            (r.0 as nat, r.1 as nat, r.2 as nat, r.3 as nat) == statistics_of(
                self@,
                subnames@.map_values(|s: SubName| s@),
            ),
    {
        let ghost subs = subnames@.map_values(|s: SubName| s@);
        match self {
            Impl::Done(_) => (1, 1, 1, 1),
            Impl::Code(c) => {
                let mut count: usize = 1;
                let mut value: usize = if c.primary.is_some() {
                    1
                } else {
                    0
                };
                let mut i: usize = 0;
                while i < subnames.len()
                    invariant
                        i <= subnames@.len(),
                        subnames@.len() < usize::MAX,
                        subs == subnames@.map_values(|s: SubName| s@),
                        count == 1 + i,
                        value as nat == (if c.primary is Some {
                            1nat
                        } else {
                            0nat
                        }) + count_present(subs.subrange(0, i as int), secondary_keys(c@.secondary)),
                    decreases subnames@.len() - i,
                {
                    proof {
                        lemma_count_present_le(subs.subrange(0, i as int), secondary_keys(c@.secondary));
                        assert(subs.subrange(0, i + 1).drop_last() =~= subs.subrange(0, i as int));
                    }
                    count = count + 1;
                    if has_secondary(c, &subnames[i]) {
                        value = value + 1;
                    }
                    i = i + 1;
                }
                assert(subs.subrange(0, i as int) =~= subs);
                (count, value, 0, 0)
            },
            Impl::NotImpl => {
                if subnames.len() > 0 {
                    (1 + subnames.len(), 0, 0, 0)
                } else {
                    (0, 0, 0, 0)
                }
            },
        }
    }

    /// Whether this is the `Done` state.
    pub fn is_done(&self) -> (r: bool)
        ensures
            r == self is Done,
    {
        match self {
            Impl::Done(_) => true,
            _ => false,
        }
    }
}

impl SortKey for SubName {
    open spec fn sort_key(&self) -> Seq<u32> {
        codes(self@)
    }

    fn cmp_key(&self, other: &SubName) -> (r: i8) {
        compare_codes(self.raw.as_str(), other.raw.as_str())
    }
}

impl SortKey for (SubName, CodeLoc) {
    open spec fn sort_key(&self) -> Seq<u32> {
        codes(self.0@)
    }

    fn cmp_key(&self, other: &(SubName, CodeLoc)) -> (r: i8) {
        compare_codes(self.0.raw.as_str(), other.0.raw.as_str())
    }
}

} // verus!
