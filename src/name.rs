use vstd::prelude::*;
use vstd::string::*;

verus! {

/// The three artifact kinds: requirement, specification and test.
#[derive(Clone, Copy, Debug, PartialEq, Eq, Structural, Hash)]
pub enum Type {
    REQ,
    SPC,
    TST,
}

/// Characters allowed inside a segment of a name.
pub open spec fn is_seg_char(c: char) -> bool {
    ('a' <= c && c <= 'z') || ('A' <= c && c <= 'Z') || ('0' <= c && c <= '9') || c == '_'
}

/// Case-folded code of a character: ASCII lower case maps to upper case.
pub open spec fn fold_char(c: char) -> u32 {
    if 'a' <= c && c <= 'z' {
        (c as u32 - 32) as u32
    } else {
        c as u32
    }
}

/// The case-normalised key by which names are compared and ordered.
pub open spec fn key_of(s: Seq<char>) -> Seq<u32> {
    Seq::new(s.len(), |i: int| fold_char(s[i]))
}

/// The upper-case text of a type tag.
pub open spec fn type_text(t: Type) -> Seq<char> {
    match t {
        Type::REQ => seq!['R', 'E', 'Q'],
        Type::SPC => seq!['S', 'P', 'C'],
        Type::TST => seq!['T', 'S', 'T'],
    }
}

/// The type named by the first three characters, compared without case.
pub open spec fn type_of(s: Seq<char>) -> Option<Type> {
    if s.len() < 3 {
        None
    } else if key_of(s.subrange(0, 3)) == key_of(type_text(Type::REQ)) {
        Some(Type::REQ)
    } else if key_of(s.subrange(0, 3)) == key_of(type_text(Type::SPC)) {
        Some(Type::SPC)
    } else if key_of(s.subrange(0, 3)) == key_of(type_text(Type::TST)) {
        Some(Type::TST)
    } else {
        None
    }
}

/// The naming grammar: a type tag, then one or more `-`-separated
/// non-empty segments of letters, digits and `_`.
pub open spec fn valid_name(s: Seq<char>) -> bool {
    &&& type_of(s) is Some
    &&& s.len() > 4
    &&& s[3] == '-'
    &&& forall|i: int|
        3 <= i < s.len() ==> if s[i] == '-' {
            i + 1 < s.len() && s[i + 1] != '-'
        } else {
            is_seg_char(#[trigger] s[i])
        }
}

/// Index of the last `-` in `s`, or -1 where there is none.
pub open spec fn last_dash(s: Seq<char>) -> int
    decreases s.len(),
{
    if s.len() == 0 {
        -1
    } else if s.last() == '-' {
        s.len() - 1
    } else {
        last_dash(s.drop_last())
    }
}

/// The parent's text: the name without its last segment, where a segment
/// would remain.
pub open spec fn parent_of(s: Seq<char>) -> Option<Seq<char>> {
    if last_dash(s) <= 3 {
        None
    } else {
        Some(s.subrange(0, last_dash(s)))
    }
}

/// The text of the artifact a name is linked to by convention: none for
/// REQ, the REQ of the same path for SPC, the SPC of the same path for TST.
pub open spec fn auto_partof_of(s: Seq<char>) -> Option<Seq<char>> {
    match type_of(s) {
        Some(Type::SPC) => Some(type_text(Type::REQ) + s.subrange(3, s.len() as int)),
        Some(Type::TST) => Some(type_text(Type::SPC) + s.subrange(3, s.len() as int)),
        _ => None,
    }
}

pub proof fn lemma_last_dash(s: Seq<char>)
    ensures
        -1 <= last_dash(s) < s.len(),
        last_dash(s) >= 0 ==> s[last_dash(s)] == '-',
        forall|j: int| last_dash(s) < j < s.len() ==> s[j] != '-',
    decreases s.len(),
{
    if s.len() > 0 && s.last() != '-' {
        lemma_last_dash(s.drop_last());
        assert forall|j: int| last_dash(s) < j < s.len() implies s[j] != '-' by {
            if j < s.len() - 1 {
                assert(s[j] == s.drop_last()[j]);
            }
        }
    }
}

proof fn lemma_key_prefix(s: Seq<char>, t: Seq<char>)
    requires
        s.len() >= 3,
        t.len() >= 3,
        s.subrange(0, 3) == t.subrange(0, 3),
    ensures
        type_of(s) == type_of(t),
{
}

/// Why a text was refused as a name.
#[derive(Debug)]
pub struct InvalidName {
    /// The offending text.
    pub text: String,
}

/// A validated artifact name.
#[derive(Debug)]
pub struct Name {
    raw: String,
}

impl Clone for Name {
    fn clone(&self) -> (r: Self)
        ensures
            r@ == self@,
    {
        proof {
            use_type_invariant(self);
        }
        Name { raw: self.raw.clone() }
    }
}

impl View for Name {
    type V = Seq<char>;

    closed spec fn view(&self) -> Seq<char> {
        self.raw@
    }
}

pub open spec fn opt_name_view(o: Option<Name>) -> Option<Seq<char>> {
    match o {
        Some(n) => Some(n@),
        None => None,
    }
}

pub(crate) fn fold_code(c: char) -> (r: u32)
    ensures
        r == fold_char(c),
{
    if 'a' <= c && c <= 'z' {
        c as u32 - 32
    } else {
        c as u32
    }
}

fn is_seg_char_exec(c: char) -> (r: bool)
    ensures
        r == is_seg_char(c),
{
    ('a' <= c && c <= 'z') || ('A' <= c && c <= 'Z') || ('0' <= c && c <= '9') || c == '_'
}

fn type_from_prefix(s: &str) -> (r: Option<Type>)
    ensures
        r == type_of(s@),
{
    if s.unicode_len() < 3 {
        return None;
    }
    let a = fold_code(s.get_char(0));
    let b = fold_code(s.get_char(1));
    let c = fold_code(s.get_char(2));
    let ghost p = key_of(s@.subrange(0, 3));
    assert(p =~= seq![a, b, c]);
    assert(key_of(type_text(Type::REQ)) =~= seq!['R' as u32, 'E' as u32, 'Q' as u32]);
    assert(key_of(type_text(Type::SPC)) =~= seq!['S' as u32, 'P' as u32, 'C' as u32]);
    assert(key_of(type_text(Type::TST)) =~= seq!['T' as u32, 'S' as u32, 'T' as u32]);
    if a == 'R' as u32 && b == 'E' as u32 && c == 'Q' as u32 {
        Some(Type::REQ)
    } else if a == 'S' as u32 && b == 'P' as u32 && c == 'C' as u32 {
        Some(Type::SPC)
    } else if a == 'T' as u32 && b == 'S' as u32 && c == 'T' as u32 {
        Some(Type::TST)
    } else {
        None
    }
}

fn type_str(t: Type) -> (r: &'static str)
    ensures
        r@ == type_text(t),
{
    proof {
        reveal_strlit("REQ");
        reveal_strlit("SPC");
        reveal_strlit("TST");
    }
    match t {
        Type::REQ => "REQ",
        Type::SPC => "SPC",
        Type::TST => "TST",
    }
}

impl Name {
    #[verifier::type_invariant]
    pub open spec fn inv(self) -> bool {
        valid_name(self@)
    }

    /// Parse and validate a name.
    pub fn from_str(s: &str) -> (r: Result<Name, InvalidName>)
        ensures
            match r {
                Ok(n) => n@ == s@,
                Err(e) => e.text@ == s@,
            },
            r is Ok <==> valid_name(s@),
    {
        let n = s.unicode_len();
        if type_from_prefix(s).is_none() {
            return Err(InvalidName { text: String::from_str(s) });
        }
        if n <= 4 || s.get_char(3) != '-' {
            return Err(InvalidName { text: String::from_str(s) });
        }
        let mut i: usize = 3;
        while i < n
            invariant
                3 <= i <= n,
                n == s@.len(),
                n > 4,
                s@[3] == '-',
                forall|j: int|
                    3 <= j < i ==> if s@[j] == '-' {
                        j + 1 < n && s@[j + 1] != '-'
                    } else {
                        is_seg_char(#[trigger] s@[j])
                    },
            decreases n - i,
        {
            let c = s.get_char(i);
            if c == '-' {
                if i + 1 >= n || s.get_char(i + 1) == '-' {
                    return Err(InvalidName { text: String::from_str(s) });
                }
            } else if !is_seg_char_exec(c) {
                return Err(InvalidName { text: String::from_str(s) });
            }
            i = i + 1;
        }
        Ok(Name { raw: String::from_str(s) })
    }

    /// The name's text as written.
    pub fn as_str(&self) -> (r: &str)
        ensures
            r@ == self@,
            valid_name(self@),
    {
        proof {
            use_type_invariant(self);
        }
        self.raw.as_str()
    }

    /// The name's type.
    pub fn ty(&self) -> (r: Type)
        ensures
            type_of(self@) == Some(r),
    {
        proof {
            use_type_invariant(self);
        }
        match type_from_prefix(self.raw.as_str()) {
            Some(t) => t,
            None => Type::REQ,
        }
    }

    /// The parent: the name without its last segment, or none where only
    /// one segment is left.
    pub fn parent(&self) -> (r: Option<Name>)
        ensures
            opt_name_view(r) == parent_of(self@),
    {
        proof {
            use_type_invariant(self);
            lemma_last_dash(self.raw@);
        }
        let s = self.raw.as_str();
        let n = s.unicode_len();
        let mut i: usize = n;
        while i > 0 && s.get_char(i - 1) != '-'
            invariant
                0 <= i <= n,
                n == s@.len(),
                forall|j: int| i <= j < n ==> s@[j] != '-',
            decreases i,
        {
            i = i - 1;
        }
        // the first segment's dash is always there, so i - 1 >= 3
        assert(s@[3] == '-');
        assert(i >= 4);
        let loc = i - 1;
        assert(loc == last_dash(s@)) by {
            assert(s@[loc as int] == '-');
            if last_dash(s@) > loc {
            } else if last_dash(s@) < loc {
            }
        }
        if loc <= 3 {
            None
        } else {
            let p = s.substring_char(0, loc);
            let ghost ps = s@.subrange(0, loc as int);
            assert(p@ == ps);
            assert(ps.subrange(0, 3) =~= s@.subrange(0, 3));
            assert(valid_name(ps)) by {
                lemma_key_prefix(s@, ps);
                assert(ps[3] == s@[3]);
                assert forall|j: int| 3 <= j < ps.len() implies if ps[j] == '-' {
                    j + 1 < ps.len() && ps[j + 1] != '-'
                } else {
                    is_seg_char(#[trigger] ps[j])
                } by {
                    assert(ps[j] == s@[j]);
                    if ps[j] == '-' {
                        assert(j + 1 < s@.len() && s@[j + 1] != '-');
                        if j + 1 == ps.len() {
                            assert(s@[j + 1] == '-');
                        }
                        assert(ps[j + 1] == s@[j + 1]);
                    }
                }
            }
            proof {
                lemma_key_prefix(s@, ps);
            }
            Some(Name { raw: String::from_str(p) })
        }
    }

    /// The artifact this one is linked to by convention.
    pub fn auto_partof(&self) -> (r: Option<Name>)
        ensures
            opt_name_view(r) == auto_partof_of(self@),
    {
        proof {
            use_type_invariant(self);
        }
        let ty = match self.ty() {
            Type::REQ => return None,
            Type::SPC => Type::REQ,
            Type::TST => Type::SPC,
        };
        let s = self.raw.as_str();
        let n = s.unicode_len();
        let rest = s.substring_char(3, n);
        let out = String::from_str(type_str(ty)).concat(rest);
        let ghost o = out@;
        assert(o =~= type_text(ty) + s@.subrange(3, n as int));
        assert(valid_name(o)) by {
            assert(o.subrange(0, 3) =~= type_text(ty));
            assert(type_of(o) == Some(ty)) by {
                assert(key_of(o.subrange(0, 3)) =~= key_of(type_text(ty)));
                assert(key_of(type_text(Type::REQ)) =~= seq!['R' as u32, 'E' as u32, 'Q' as u32]);
                assert(key_of(type_text(Type::SPC)) =~= seq!['S' as u32, 'P' as u32, 'C' as u32]);
                assert(key_of(type_text(Type::TST)) =~= seq!['T' as u32, 'S' as u32, 'T' as u32]);
            }
            assert forall|j: int| 3 <= j < o.len() implies if o[j] == '-' {
                j + 1 < o.len() && o[j + 1] != '-'
            } else {
                is_seg_char(#[trigger] o[j])
            } by {
                assert(o[j] == s@[j]);
                if j + 1 < o.len() {
                    assert(o[j + 1] == s@[j + 1]);
                }
            }
        }
        Some(Name { raw: out })
    }
}

} // verus!
