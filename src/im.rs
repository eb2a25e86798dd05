//! The intermediate form of an artifact, its clean form and its identity
//! hash.
use vstd::prelude::*;
use vstd::string::*;
use vstd::utf8::encode_utf8;
use crate::family::{is_auto_of, strip_auto_partofs};
use crate::name::{Name, fold_char, fold_code, key_of};
use crate::names::{Names, names_wf, lemma_sorted_unique};
use crate::order::key_lt;
use crate::text::{clean_text, clean_text_of, lemma_clean_text_idempotent};

verus! {

/// The 128-bit SipHash-2-4 of a byte string under the zero key, as 16
/// little-endian bytes.
pub uninterp spec fn sip128_of(b: Seq<u8>) -> Seq<u8>;

/// The URL-safe base64 text of a byte string, without padding.
pub uninterp spec fn url_b64_of(b: Seq<u8>) -> Seq<char>;

/// The bytes that a URL-safe base64 text stands for, or none where the
/// text is not such base64.
pub uninterp spec fn url_b64_decode(s: Seq<char>) -> Option<Seq<u8>>;

/// Relies on siphasher's `sip128::SipHasher::new().hash(..)`, as the
/// 16 bytes of `Hash128::as_bytes`: a function of the bytes alone.
#[verifier::external_body]
fn sip128(b: &[u8]) -> (r: [u8; 16])
    ensures
        r@ == sip128_of(b@),
{
    siphasher::sip128::SipHasher::new().hash(b).as_bytes()
}

/// The characters of URL-safe base64.
pub open spec fn is_url_b64_char(c: char) -> bool {
    ('A' <= c && c <= 'Z') || ('a' <= c && c <= 'z') || ('0' <= c && c <= '9') || c == '-' || c == '_'
}

/// Relies on base64's `encode_config` with `URL_SAFE_NO_PAD`: four
/// characters for every three bytes and two or three for a last one or
/// two, all of the URL-safe alphabet, no padding; decoding that text with
/// the same configuration gives the bytes back.
#[verifier::external_body]
fn b64_encode(b: &[u8]) -> (r: String)
    ensures
        r@ == url_b64_of(b@),
        r@.len() == (4 * b@.len() + 2) / 3,
        forall|i: int| 0 <= i < r@.len() ==> is_url_b64_char(#[trigger] r@[i]),
        url_b64_decode(r@) == Some(b@),
{
    base64::encode_config(b, base64::URL_SAFE_NO_PAD)
}

#[verifier::external_type_specification]
#[verifier::external_body]
pub struct ExDecodeError(base64::DecodeError);

/// Relies on base64's `decode_config` with `URL_SAFE_NO_PAD`: the bytes the
/// text stands for, or an error where it is not URL-safe base64.
#[verifier::external_body]
fn b64_decode(s: &str) -> (r: Result<Vec<u8>, base64::DecodeError>)
    ensures
        match r {
            Ok(v) => url_b64_decode(s@) == Some(v@),
            Err(_) => url_b64_decode(s@) is None,
        },
{
    base64::decode_config(s, base64::URL_SAFE_NO_PAD)
}

/// The 128-bit identity hash of a clean intermediate artifact.
#[derive(Clone, Copy, Debug)]
pub struct HashIm(pub [u8; 16]);

impl PartialEq for HashIm {
    fn eq(&self, other: &HashIm) -> (r: bool) {
        let mut i: usize = 0;
        while i < 16
            invariant
                i <= 16,
                self.0@.len() == 16,
                other.0@.len() == 16,
                forall|j: int| 0 <= j < i ==> self.0@[j] == other.0@[j],
            decreases 16 - i,
        {
            if self.0[i] != other.0[i] {
                return false;
            }
            i = i + 1;
        }
        assert(self.0@ =~= other.0@);
        true
    }
}

impl vstd::std_specs::cmp::PartialEqSpecImpl for HashIm {
    open spec fn obeys_eq_spec() -> bool {
        true
    }

    open spec fn eq_spec(&self, other: &HashIm) -> bool {
        self.0@ == other.0@
    }
}

impl Eq for HashIm {
}

impl Default for HashIm {
    fn default() -> (r: HashIm)
        ensures
            r.0@ == Seq::new(16, |i: int| 0u8),
    {
        let r = HashIm([0u8; 16]);
        assert(r.0@ =~= Seq::new(16, |i: int| 0u8));
        r
    }
}

/// Why a text is not the text of a hash.
#[derive(Clone, Copy, Debug, PartialEq, Eq, Structural)]
pub enum HashTextError {
    /// Not URL-safe base64.
    NotBase64,
    /// Base64, but not of 16 bytes.
    WrongLength,
}

impl HashIm {
    /// The URL-safe base64 text of the hash, without padding.
    pub fn encode(&self) -> (r: String)
        ensures
            r@ == url_b64_of(self.0@),
            r@.len() == 22,
            forall|i: int| 0 <= i < r@.len() ==> is_url_b64_char(#[trigger] r@[i]),
            url_b64_decode(r@) == Some(self.0@),
    {
        b64_encode(self.0.as_slice())
    }

    /// Read a hash from its URL-safe base64 text.
    pub fn decode(s: &str) -> (r: Result<HashIm, HashTextError>)
        ensures
            match url_b64_decode(s@) {
                None => r == Err::<HashIm, HashTextError>(HashTextError::NotBase64),
                Some(b) => if b.len() == 16 {
                    r is Ok && r->Ok_0.0@ == b
                } else {
                    r == Err::<HashIm, HashTextError>(HashTextError::WrongLength)
                },
            },
    {
        let v = match b64_decode(s) {
            Ok(v) => v,
            Err(_) => return Err(HashTextError::NotBase64),
        };
        if v.len() != 16 {
            return Err(HashTextError::WrongLength);
        }
        let mut a = [0u8; 16];
        let mut i: usize = 0;
        while i < 16
            invariant
                i <= 16,
                v@.len() == 16,
                a@.len() == 16,
                forall|j: int| 0 <= j < i ==> a@[j] == v@[j],
            decreases 16 - i,
        {
            a[i] = v[i];
            i = i + 1;
        }
        assert(a@ =~= v@);
        Ok(HashIm(a))
    }
}

/// The intermediate form as values.
pub struct ArtifactImView {
    pub name: Seq<char>,
    pub file: Seq<char>,
    pub partof: Seq<Seq<char>>,
    pub done: Option<Seq<char>>,
    pub text: Seq<char>,
}

/// `s` without the links of `n` by convention, order kept.
pub open spec fn strip_seq(n: Seq<char>, s: Seq<Seq<char>>) -> Seq<Seq<char>>
    decreases s.len(),
{
    if s.len() == 0 {
        s
    } else if is_auto_of(n, s.last()) {
        strip_seq(n, s.drop_last())
    } else {
        strip_seq(n, s.drop_last()).push(s.last())
    }
}

/// The clean form: links by convention stripped, text normalised.
pub open spec fn clean_of(a: ArtifactImView) -> ArtifactImView {
    ArtifactImView {
        name: a.name,
        file: a.file,
        partof: strip_seq(a.name, a.partof),
        done: a.done,
        text: clean_text_of(a.text),
    }
}

/// A text as hashed: its UTF-8 bytes, closed by 0xff.
pub open spec fn str_field(s: Seq<char>) -> Seq<u8> {
    encode_utf8(s).push(0xffu8)
}

/// A linked name as hashed: its folded key, a byte a character, closed by
/// 0xff.
pub open spec fn key_field(n: Seq<char>) -> Seq<u8> {
    Seq::new(n.len(), |i: int| fold_char(n[i]) as u8).push(0xffu8)
}

/// The linked names as hashed, in order.
pub open spec fn keys_bytes(s: Seq<Seq<char>>) -> Seq<u8>
    decreases s.len(),
{
    if s.len() == 0 {
        Seq::empty()
    } else {
        keys_bytes(s.drop_last()) + key_field(s.last())
    }
}

/// The done marker as hashed.
pub open spec fn done_field(d: Option<Seq<char>>) -> Seq<u8> {
    match d {
        None => seq![0u8],
        Some(s) => seq![1u8] + str_field(s),
    }
}

/// The bytes that are hashed: name text, file, linked names, done marker
/// and text, in that order.
pub open spec fn im_bytes(a: ArtifactImView) -> Seq<u8> {
    str_field(a.name) + str_field(a.file) + keys_bytes(a.partof).push(0xfeu8) + done_field(a.done)
        + str_field(a.text)
}

/// The identity hash of an intermediate form.
pub open spec fn hash_of(a: ArtifactImView) -> Seq<u8> {
    sip128_of(im_bytes(a))
}

pub proof fn lemma_push_to_set<A>(t: Seq<A>, x: A)
    ensures
        t.push(x).to_set() == t.to_set().insert(x),
{
    let u = t.push(x);
    assert forall|y| u.to_set().contains(y) implies t.to_set().insert(x).contains(y) by {
        let i = choose|i: int| 0 <= i < u.len() && u[i] == y;
        if i < t.len() {
            assert(t[i] == y);
        }
    }
    assert forall|y| t.to_set().insert(x).contains(y) implies u.to_set().contains(y) by {
        if y == x {
            assert(u[t.len() as int] == y);
        } else {
            let i = choose|i: int| 0 <= i < t.len() && t[i] == y;
            assert(u[i] == y);
        }
    }
    assert(u.to_set() =~= t.to_set().insert(x));
}

pub proof fn lemma_strip_set(n: Seq<char>, s: Seq<Seq<char>>)
    ensures
        strip_seq(n, s).to_set() == s.to_set().filter(|x: Seq<char>| !is_auto_of(n, x)),
    decreases s.len(),
{
    if s.len() > 0 {
        lemma_strip_set(n, s.drop_last());
        assert(s =~= s.drop_last().push(s.last()));
        lemma_push_to_set(s.drop_last(), s.last());
        if !is_auto_of(n, s.last()) {
            lemma_push_to_set(strip_seq(n, s.drop_last()), s.last());
        }
        assert(strip_seq(n, s).to_set() =~= s.to_set().filter(|x: Seq<char>| !is_auto_of(n, x)));
    } else {
        assert(s.to_set() =~= Set::empty());
        assert(strip_seq(n, s).to_set() =~= s.to_set().filter(|x: Seq<char>| !is_auto_of(n, x)));
    }
}

pub proof fn lemma_strip_wf(n: Seq<char>, s: Seq<Seq<char>>)
    requires
        names_wf(s),
    ensures
        names_wf(strip_seq(n, s)),
    decreases s.len(),
{
    if s.len() > 0 {
        let t = s.drop_last();
        assert(names_wf(t));
        lemma_strip_wf(n, t);
        lemma_strip_set(n, t);
        let r = strip_seq(n, t);
        if !is_auto_of(n, s.last()) {
            assert forall|i: int| 0 <= i < r.len() implies key_lt(key_of(#[trigger] r[i]), key_of(s.last())) by {
                assert(r.to_set().contains(r[i]));
                assert(t.to_set().contains(r[i]));
                let j = choose|j: int| 0 <= j < t.len() && t[j] == r[i];
                assert(s[j] == t[j]);
            }
            let q = r.push(s.last());
            assert forall|i: int, j: int| 0 <= i < j < q.len() implies key_lt(
                key_of(#[trigger] q[i]),
                key_of(#[trigger] q[j]),
            ) by {
                if j == r.len() {
                    assert(q[j] == s.last());
                } else {
                    assert(q[i] == r[i] && q[j] == r[j]);
                }
            }
        }
    }
}

pub proof fn lemma_strip_idempotent(n: Seq<char>, s: Seq<Seq<char>>)
    ensures
        strip_seq(n, strip_seq(n, s)) == strip_seq(n, s),
    decreases s.len(),
{
    if s.len() > 0 {
        lemma_strip_idempotent(n, s.drop_last());
        let r = strip_seq(n, s.drop_last());
        if !is_auto_of(n, s.last()) {
            assert(r.push(s.last()).drop_last() =~= r);
        }
    }
}

/// Cleaning is idempotent, and so the hash of a clean form does not change
/// when it is cleaned again.
pub proof fn lemma_clean_idempotent(a: ArtifactImView)
    ensures
        clean_of(clean_of(a)) == clean_of(a),
        hash_of(clean_of(clean_of(a))) == hash_of(clean_of(a)),
{
    lemma_strip_idempotent(a.name, a.partof);
    lemma_clean_text_idempotent(a.text);
}

/// The minimal, user-editable form of an artifact.
#[derive(Debug)]
pub struct ArtifactIm {
    pub name: Name,
    pub file: String,
    pub partof: Names,
    pub done: Option<String>,
    pub text: String,
}

impl Clone for ArtifactIm {
    fn clone(&self) -> (r: Self)
        ensures
            r@ == self@,
    {
        let done = match &self.done {
            Some(d) => Some(d.clone()),
            None => None,
        };
        ArtifactIm {
            name: self.name.clone(),
            file: self.file.clone(),
            partof: self.partof.clone(),
            done,
            text: self.text.clone(),
        }
    }
}

pub open spec fn opt_str_view(o: Option<String>) -> Option<Seq<char>> {
    match o {
        Some(s) => Some(s@),
        None => None,
    }
}

impl View for ArtifactIm {
    type V = ArtifactImView;

    open spec fn view(&self) -> ArtifactImView {
        ArtifactImView {
            name: self.name@,
            file: self.file@,
            partof: self.partof@,
            done: opt_str_view(self.done),
            text: self.text@,
        }
    }
}

fn push_str_field(out: &mut Vec<u8>, s: &str)
    ensures
        final(out)@ == old(out)@ + str_field(s@),
{
    let b = s.as_bytes();
    let mut i: usize = 0;
    while i < b.len()
        invariant
            i <= b@.len(),
            b@ == encode_utf8(s@),
            out@ == old(out)@ + b@.subrange(0, i as int),
        decreases b@.len() - i,
    {
        out.push(b[i]);
        assert(b@.subrange(0, i + 1) =~= b@.subrange(0, i as int).push(b@[i as int]));
        i = i + 1;
    }
    out.push(0xffu8);
    assert(b@.subrange(0, i as int) =~= b@);
    assert(out@ =~= old(out)@ + str_field(s@));
}

fn push_key_field(out: &mut Vec<u8>, n: &Name)
    ensures
        final(out)@ == old(out)@ + key_field(n@),
{
    let s = n.as_str();
    let len = s.unicode_len();
    let ghost k = Seq::new(n@.len(), |i: int| fold_char(n@[i]) as u8);
    let mut i: usize = 0;
    while i < len
        invariant
            i <= len,
            len == s@.len(),
            s@ == n@,
            k == Seq::new(n@.len(), |i: int| fold_char(n@[i]) as u8),
            out@ == old(out)@ + k.subrange(0, i as int),
        decreases len - i,
    {
        let c = fold_code(s.get_char(i));
        out.push(c as u8);
        assert(k.subrange(0, i + 1) =~= k.subrange(0, i as int).push(k[i as int]));
        i = i + 1;
    }
    out.push(0xffu8);
    assert(k.subrange(0, i as int) =~= k);
    assert(out@ =~= old(out)@ + key_field(n@));
}

impl ArtifactIm {
    /// Well-formed: the linked names are a sorted set.
    pub open spec fn wf(&self) -> bool {
        self.partof.wf()
    }

    /// The bytes that the identity hash is taken of.
    pub fn hash_bytes(&self) -> (r: Vec<u8>)
        ensures
            r@ == im_bytes(self@),
    {
        let mut out: Vec<u8> = Vec::new();
        push_str_field(&mut out, self.name.as_str());
        push_str_field(&mut out, self.file.as_str());
        let ghost start = out@;
        let mut i: usize = 0;
        while i < self.partof.len()
            invariant
                i <= self.partof@.len(),
                out@ == start + keys_bytes(self.partof@.subrange(0, i as int)),
            decreases self.partof@.len() - i,
        {
            push_key_field(&mut out, self.partof.get(i));
            let ghost p = self.partof@.subrange(0, i + 1);
            assert(p.drop_last() =~= self.partof@.subrange(0, i as int));
            i = i + 1;
        }
        assert(self.partof@.subrange(0, i as int) =~= self.partof@);
        out.push(0xfeu8);
        match &self.done {
            None => {
                out.push(0u8);
            },
            Some(d) => {
                out.push(1u8);
                push_str_field(&mut out, d.as_str());
            },
        }
        push_str_field(&mut out, self.text.as_str());
        assert(out@ =~= im_bytes(self@));
        out
    }

    /// The identity hash of this form, taken as it stands: clean it first.
    pub fn hash_im(&self) -> (r: HashIm)
        ensures
            r.0@ == hash_of(self@),
    {
        let b = self.hash_bytes();
        HashIm(sip128(b.as_slice()))
    }

    /// Clean in place: strip the links by convention and normalise the
    /// text.
    pub fn clean(&mut self)
        requires
            old(self).wf(),
        ensures
            final(self).wf(),
            final(self)@ == clean_of(old(self)@),
    {
        let ghost p0 = self.partof@;
        strip_auto_partofs(&self.name, &mut self.partof);
        clean_text(&mut self.text);
        proof {
            lemma_strip_set(self.name@, p0);
            lemma_strip_wf(self.name@, p0);
            lemma_sorted_unique(self.partof@, strip_seq(self.name@, p0));
        }
    }
}

} // verus!
