//! The fields that `ls` searches and shows, parsed from the command line.
use vstd::prelude::*;
use vstd::string::*;
use crate::text::{split_on, split_str, strs_view};

verus! {

/// Which fields of an artifact are selected.
#[derive(Clone, Copy, Debug, PartialEq, Eq, Structural)]
pub struct Flags {
    pub name: bool,
    pub file: bool,
    pub parts: bool,
    pub partof: bool,
    pub code: bool,
    pub text: bool,
}

/// The selection used where none is given: name and parts.
pub open spec fn default_flags() -> Flags {
    Flags { name: true, file: false, parts: true, partof: false, code: false, text: false }
}

pub open spec fn flags_empty(f: Flags) -> bool {
    !(f.name || f.file || f.parts || f.partof || f.code || f.text)
}

pub open spec fn flags_inverted(f: Flags) -> Flags {
    Flags {
        name: !f.name,
        file: !f.file,
        parts: !f.parts,
        partof: !f.partof,
        code: !f.code,
        text: !f.text,
    }
}

/// With `all`, the selection is inverted; an empty one means the default.
pub open spec fn flags_resolved(f: Flags, all: bool) -> Flags {
    if all {
        flags_inverted(f)
    } else if flags_empty(f) {
        default_flags()
    } else {
        f
    }
}

pub open spec fn has_upper(s: Seq<char>) -> bool {
    exists|i: int| 0 <= i < s.len() && 'A' <= #[trigger] s[i] && s[i] <= 'Z'
}

/// The field words of a selection: comma-separated words, else one
/// lower-case word, else one letter each.
pub open spec fn field_words(s: Seq<char>) -> Seq<Seq<char>> {
    if s.contains(',') {
        split_on(s, ',')
    } else if !has_upper(s) {
        seq![s]
    } else {
        Seq::new(s.len(), |i: int| seq![s[i]])
    }
}

/// The words a selection may use.
pub open spec fn is_field_word(w: Seq<char>) -> bool {
    ||| w == seq!['N'] ||| w == seq!['F'] ||| w == seq!['P'] ||| w == seq!['O']
    ||| w == seq!['C'] ||| w == seq!['T'] ||| w == seq!['A']
    ||| w == seq!['n', 'a', 'm', 'e']
    ||| w == seq!['f', 'i', 'l', 'e']
    ||| w == seq!['p', 'a', 'r', 't', 's']
    ||| w == seq!['p', 'a', 'r', 't', 'o', 'f']
    ||| w == seq!['c', 'o', 'd', 'e']
    ||| w == seq!['t', 'e', 'x', 't']
    ||| w == seq!['a', 'l', 'l']
}

pub open spec fn words_valid(ws: Seq<Seq<char>>) -> bool {
    forall|i: int| 0 <= i < ws.len() ==> (#[trigger] ws[i]).len() == 0 || is_field_word(ws[i])
}

pub open spec fn has_word(ws: Seq<Seq<char>>, short: Seq<char>, long: Seq<char>) -> bool {
    ws.contains(short) || ws.contains(long)
}

/// The selection the words ask for, before `all` and the default apply.
pub open spec fn flags_of_words(ws: Seq<Seq<char>>) -> Flags {
    Flags {
        name: has_word(ws, seq!['N'], seq!['n', 'a', 'm', 'e']),
        file: has_word(ws, seq!['F'], seq!['f', 'i', 'l', 'e']),
        parts: has_word(ws, seq!['P'], seq!['p', 'a', 'r', 't', 's']),
        partof: has_word(ws, seq!['O'], seq!['p', 'a', 'r', 't', 'o', 'f']),
        code: has_word(ws, seq!['C'], seq!['c', 'o', 'd', 'e']),
        text: has_word(ws, seq!['T'], seq!['t', 'e', 'x', 't']),
    }
}

/// A selection names a field that does not exist.
#[derive(Debug)]
pub struct UnknownField {
    /// The first unknown word.
    pub field: String,
}

fn str_eq(a: &str, b: &str) -> (r: bool)
    ensures
        r == (a@ == b@),
{
    let n = a.unicode_len();
    if n != b.unicode_len() {
        return false;
    }
    let mut i: usize = 0;
    while i < n
        invariant
            i <= n,
            n == a@.len(),
            n == b@.len(),
            forall|j: int| 0 <= j < i ==> a@[j] == b@[j],
        decreases n - i,
    {
        if a.get_char(i) != b.get_char(i) {
            return false;
        }
        i = i + 1;
    }
    assert(a@ =~= b@);
    true
}

/// Add what word `w` selects; say whether it is a field word.
fn apply_word(w: &str, f: &mut Flags, all: &mut bool) -> (r: bool)
    ensures
        r == is_field_word(w@),
        final(f).name == (old(f).name || w@ == seq!['N'] || w@ == seq!['n', 'a', 'm', 'e']),
        final(f).file == (old(f).file || w@ == seq!['F'] || w@ == seq!['f', 'i', 'l', 'e']),
        final(f).parts == (old(f).parts || w@ == seq!['P'] || w@ == seq!['p', 'a', 'r', 't', 's']),
        final(f).partof == (old(f).partof || w@ == seq!['O'] || w@ == seq!['p', 'a', 'r', 't', 'o', 'f']),
        final(f).code == (old(f).code || w@ == seq!['C'] || w@ == seq!['c', 'o', 'd', 'e']),
        final(f).text == (old(f).text || w@ == seq!['T'] || w@ == seq!['t', 'e', 'x', 't']),
        *final(all) == (*old(all) || w@ == seq!['A'] || w@ == seq!['a', 'l', 'l']),
{
    proof {
        reveal_strlit("N");
        reveal_strlit("F");
        reveal_strlit("P");
        reveal_strlit("O");
        reveal_strlit("C");
        reveal_strlit("T");
        reveal_strlit("A");
        reveal_strlit("name");
        reveal_strlit("file");
        reveal_strlit("parts");
        reveal_strlit("partof");
        reveal_strlit("code");
        reveal_strlit("text");
        reveal_strlit("all");
    }
    let n = str_eq(w, "N") || str_eq(w, "name");
    let fi = str_eq(w, "F") || str_eq(w, "file");
    let p = str_eq(w, "P") || str_eq(w, "parts");
    let o = str_eq(w, "O") || str_eq(w, "partof");
    let c = str_eq(w, "C") || str_eq(w, "code");
    let t = str_eq(w, "T") || str_eq(w, "text");
    let a = str_eq(w, "A") || str_eq(w, "all");
    assert(seq!['N'] =~= "N"@);
    assert(seq!['n', 'a', 'm', 'e'] =~= "name"@);
    assert(seq!['F'] =~= "F"@);
    assert(seq!['f', 'i', 'l', 'e'] =~= "file"@);
    assert(seq!['P'] =~= "P"@);
    assert(seq!['p', 'a', 'r', 't', 's'] =~= "parts"@);
    assert(seq!['O'] =~= "O"@);
    assert(seq!['p', 'a', 'r', 't', 'o', 'f'] =~= "partof"@);
    assert(seq!['C'] =~= "C"@);
    assert(seq!['c', 'o', 'd', 'e'] =~= "code"@);
    assert(seq!['T'] =~= "T"@);
    assert(seq!['t', 'e', 'x', 't'] =~= "text"@);
    assert(seq!['A'] =~= "A"@);
    assert(seq!['a', 'l', 'l'] =~= "all"@);
    f.name = f.name || n;
    f.file = f.file || fi;
    f.parts = f.parts || p;
    f.partof = f.partof || o;
    f.code = f.code || c;
    f.text = f.text || t;
    *all = *all || a;
    n || fi || p || o || c || t || a
}

impl Default for Flags {
    fn default() -> (r: Flags)
        ensures
            r == default_flags(),
    {
        Flags { name: true, file: false, parts: true, partof: false, code: false, text: false }
    }
}

impl Flags {
    /// Whether no field is selected.
    pub fn is_empty(&self) -> (r: bool)
        ensures
            r == flags_empty(*self),
    {
        !(self.name || self.file || self.parts || self.partof || self.code || self.text)
    }

    /// The opposite selection.
    pub fn invert(&self) -> (r: Flags)
        ensures
            r == flags_inverted(*self),
    {
        Flags {
            name: !self.name,
            file: !self.file,
            parts: !self.parts,
            partof: !self.partof,
            code: !self.code,
            text: !self.text,
        }
    }

    /// The selection with `all` taken into account, and the default where
    /// nothing is selected.
    pub fn resolve_actual(self, all: bool) -> (r: Flags)
        ensures
            r == flags_resolved(self, all),
    {
        if all {
            self.invert()
        } else if self.is_empty() {
            Flags::default()
        } else {
            self
        }
    }
}

fn has_comma(s: &str, n: usize) -> (r: bool)
    requires
        n == s@.len(),
    ensures
        r == s@.contains(','),
{
    let mut i: usize = 0;
    while i < n
        invariant
            i <= n,
            n == s@.len(),
            forall|j: int| 0 <= j < i ==> s@[j] != ',',
        decreases n - i,
    {
        if s.get_char(i) == ',' {
            return true;
        }
        i = i + 1;
    }
    false
}

fn has_upper_exec(s: &str, n: usize) -> (r: bool)
    requires
        n == s@.len(),
    ensures
        r == has_upper(s@),
{
    let mut i: usize = 0;
    while i < n
        invariant
            i <= n,
            n == s@.len(),
            forall|j: int| 0 <= j < i ==> !('A' <= #[trigger] s@[j] && s@[j] <= 'Z'),
        decreases n - i,
    {
        let c = s.get_char(i);
        if 'A' <= c && c <= 'Z' {
            return true;
        }
        i = i + 1;
    }
    false
}

fn words_exec<'a>(s: &'a str) -> (r: Vec<&'a str>)
    ensures
        strs_view(r@) == field_words(s@),
{
    let n = s.unicode_len();
    let mut out: Vec<&'a str> = Vec::new();
    if has_comma(s, n) {
        out = split_str(s, ',');
    } else if !has_upper_exec(s, n) {
        out.push(s);
        assert(strs_view(out@) =~= seq![s@]);
    } else {
        let mut i: usize = 0;
        while i < n
            invariant
                i <= n,
                n == s@.len(),
                out@.len() == i,
                forall|j: int| 0 <= j < i ==> (#[trigger] out@[j])@ == seq![s@[j]],
            decreases n - i,
        {
            let w = s.substring_char(i, i + 1);
            assert(w@ =~= seq![s@[i as int]]);
            out.push(w);
            i = i + 1;
        }
        assert(strs_view(out@) =~= Seq::new(n as nat, |j: int| seq![s@[j]]));
    }
    out
}

proof fn lemma_has_word_push(ws: Seq<Seq<char>>, w: Seq<char>, a: Seq<char>, b: Seq<char>)
    ensures
        has_word(ws.push(w), a, b) == (has_word(ws, a, b) || w == a || w == b),
{
    if ws.contains(a) {
        let i = choose|i: int| 0 <= i < ws.len() && ws[i] == a;
        assert(ws.push(w)[i] == a);
    }
    if ws.contains(b) {
        let i = choose|i: int| 0 <= i < ws.len() && ws[i] == b;
        assert(ws.push(w)[i] == b);
    }
    if ws.push(w).contains(a) {
        let i = choose|i: int| 0 <= i < ws.len() + 1 && ws.push(w)[i] == a;
        if i < ws.len() {
            assert(ws[i] == a);
        }
    }
    if ws.push(w).contains(b) {
        let i = choose|i: int| 0 <= i < ws.len() + 1 && ws.push(w)[i] == b;
        if i < ws.len() {
            assert(ws[i] == b);
        }
    }
    assert(ws.push(w)[ws.len() as int] == w);
}

/// The words that select all fields.
pub open spec fn selects_all(ws: Seq<Seq<char>>) -> bool {
    has_word(ws, seq!['A'], seq!['a', 'l', 'l'])
}

impl Flags {
    /// Parse a field selection: empty for the default; comma-separated
    /// words; one lower-case word; or one letter a field. `A`/`all` inverts
    /// the selection, and an empty selection means the default.
    pub fn from_str(s: &str) -> (r: Result<Flags, UnknownField>)
        ensures
            s@.len() == 0 ==> r == Ok::<Flags, UnknownField>(default_flags()),
            s@.len() > 0 ==> (r is Ok <==> words_valid(field_words(s@))),
            s@.len() > 0 && r is Ok ==> r->Ok_0 == flags_resolved(
                flags_of_words(field_words(s@)),
                selects_all(field_words(s@)),
            ),
            r is Err ==> r->Err_0.field@.len() > 0 && !is_field_word(r->Err_0.field@)
                && field_words(s@).contains(r->Err_0.field@),
    {
        let n = s.unicode_len();
        if n == 0 {
            return Ok(Flags::default());
        }
        assert(s@.len() > 0);
        let words = words_exec(s);
        let ghost ws = field_words(s@);
        let mut f = Flags { name: false, file: false, parts: false, partof: false, code: false, text: false };
        let mut all = false;
        let mut j: usize = 0;
        assert(ws.subrange(0, 0) =~= Seq::<Seq<char>>::empty());
        while j < words.len()
            invariant
                j <= words@.len(),
                s@.len() > 0,
                ws == field_words(s@),
                strs_view(words@) == ws,
                f == flags_of_words(ws.subrange(0, j as int)),
                all == selects_all(ws.subrange(0, j as int)),
                words_valid(ws.subrange(0, j as int)),
            decreases words@.len() - j,
        {
            let w = words[j];
            assert(ws[j as int] == w@);
            let ghost pre = ws.subrange(0, j as int);
            assert(ws.subrange(0, j + 1) =~= pre.push(w@));
            proof {
                lemma_has_word_push(pre, w@, seq!['N'], seq!['n', 'a', 'm', 'e']);
                lemma_has_word_push(pre, w@, seq!['F'], seq!['f', 'i', 'l', 'e']);
                lemma_has_word_push(pre, w@, seq!['P'], seq!['p', 'a', 'r', 't', 's']);
                lemma_has_word_push(pre, w@, seq!['O'], seq!['p', 'a', 'r', 't', 'o', 'f']);
                lemma_has_word_push(pre, w@, seq!['C'], seq!['c', 'o', 'd', 'e']);
                lemma_has_word_push(pre, w@, seq!['T'], seq!['t', 'e', 'x', 't']);
                lemma_has_word_push(pre, w@, seq!['A'], seq!['a', 'l', 'l']);
            }
            if w.unicode_len() > 0 {
                if !apply_word(w, &mut f, &mut all) {
                    assert(ws[j as int] == w@);
                    assert(ws[j as int].len() > 0 && !is_field_word(ws[j as int]));
                    assert(!words_valid(ws));
                    return Err(UnknownField { field: String::from_str(w) });
                }
            } else {
                assert(w@ != seq!['N'] && w@ != seq!['n', 'a', 'm', 'e']);
                assert(w@ != seq!['F'] && w@ != seq!['f', 'i', 'l', 'e']);
                assert(w@ != seq!['P'] && w@ != seq!['p', 'a', 'r', 't', 's']);
                assert(w@ != seq!['O'] && w@ != seq!['p', 'a', 'r', 't', 'o', 'f']);
                assert(w@ != seq!['C'] && w@ != seq!['c', 'o', 'd', 'e']);
                assert(w@ != seq!['T'] && w@ != seq!['t', 'e', 'x', 't']);
                assert(w@ != seq!['A'] && w@ != seq!['a', 'l', 'l']);
            }
            assert(words_valid(ws.subrange(0, j + 1))) by {
                assert forall|q: int| 0 <= q < j + 1 implies (#[trigger] ws.subrange(0, j + 1)[q]).len() == 0
                    || is_field_word(ws.subrange(0, j + 1)[q]) by {
                    if q < j {
                        assert(ws.subrange(0, j + 1)[q] == pre[q]);
                    }
                }
            }
            j = j + 1;
        }
        assert(ws.subrange(0, j as int) =~= ws);
        Ok(f.resolve_actual(all))
    }
}

} // verus!
