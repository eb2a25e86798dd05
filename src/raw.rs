//! The record a loader reads and writes for each artifact, and its
//! conversion to and from the intermediate form.
use vstd::prelude::*;
use crate::family::strip_auto_partofs;
use crate::im::{ArtifactIm, ArtifactImView, clean_of, lemma_strip_idempotent, lemma_strip_set, lemma_strip_wf, opt_str_view, strip_seq};
use crate::name::Name;
use crate::names::{Names, lemma_sorted_unique};

verus! {

/// An artifact as stored: each field may be left out.
#[derive(Debug)]
pub struct ArtifactRaw {
    pub done: Option<String>,
    pub partof: Option<Names>,
    pub text: Option<String>,
}

/// A stored record as values.
pub struct ArtifactRawView {
    pub done: Option<Seq<char>>,
    pub partof: Option<Seq<Seq<char>>>,
    pub text: Option<Seq<char>>,
}

impl View for ArtifactRaw {
    type V = ArtifactRawView;

    open spec fn view(&self) -> ArtifactRawView {
        ArtifactRawView {
            done: opt_str_view(self.done),
            partof: match self.partof {
                Some(p) => Some(p@),
                None => None,
            },
            text: opt_str_view(self.text),
        }
    }
}

impl ArtifactRaw {
    pub open spec fn wf(&self) -> bool {
        match self.partof {
            Some(p) => p.wf(),
            None => true,
        }
    }
}

/// The intermediate form of a stored record: missing links and text are
/// empty, and links by convention are stripped.
pub open spec fn im_of_raw(name: Seq<char>, file: Seq<char>, raw: ArtifactRawView) -> ArtifactImView {
    ArtifactImView {
        name,
        file,
        partof: match raw.partof {
            Some(p) => strip_seq(name, p),
            None => Seq::empty(),
        },
        done: raw.done,
        text: match raw.text {
            Some(t) => t,
            None => Seq::empty(),
        },
    }
}

/// The stored record of an intermediate form: empty links and empty text
/// are left out.
pub open spec fn raw_of_im(a: ArtifactImView) -> ArtifactRawView {
    ArtifactRawView {
        done: a.done,
        partof: if a.partof.len() == 0 {
            None
        } else {
            Some(a.partof)
        },
        text: if a.text.len() == 0 {
            None
        } else {
            Some(a.text)
        },
    }
}

/// Storing a form and reading it back gives the same clean form.
pub proof fn lemma_raw_round_trip(a: ArtifactImView)
    ensures
        clean_of(im_of_raw(a.name, a.file, raw_of_im(a))) == clean_of(a),
{
    lemma_strip_idempotent(a.name, a.partof);
    let b = im_of_raw(a.name, a.file, raw_of_im(a));
    if a.partof.len() == 0 {
        assert(a.partof =~= Seq::<Seq<char>>::empty());
    }
    if a.text.len() == 0 {
        assert(a.text =~= Seq::<char>::empty());
    }
    assert(b.text == a.text);
}

impl ArtifactIm {
    /// The intermediate form of a stored record.
    pub fn from_raw(name: Name, file: String, raw: ArtifactRaw) -> (r: ArtifactIm)
        requires
            raw.wf(),
        ensures
            r.wf(),
            r@ == im_of_raw(name@, file@, raw@),
    {
        let ghost rv = raw@;
        let mut partof = match raw.partof {
            Some(p) => p,
            None => Names::new(),
        };
        let ghost p0 = partof@;
        strip_auto_partofs(&name, &mut partof);
        proof {
            lemma_strip_set(name@, p0);
            lemma_strip_wf(name@, p0);
            lemma_sorted_unique(partof@, strip_seq(name@, p0));
            if rv.partof is None {
                assert(strip_seq(name@, p0) =~= Seq::<Seq<char>>::empty());
            }
        }
        let text = match raw.text {
            Some(t) => t,
            None => String::new(),
        };
        ArtifactIm { name, file, partof, done: raw.done, text }
    }

    /// The stored record of this form, with its file and name.
    pub fn into_raw(self) -> (r: (String, Name, ArtifactRaw))
        requires
            self.wf(),
        ensures
            r.0@ == self.file@,
            r.1@ == self.name@,
            r.2.wf(),
            r.2@ == raw_of_im(self@),
    {
        let partof = if self.partof.is_empty() {
            None
        } else {
            Some(self.partof)
        };
        let text = if self.text.as_str().unicode_len() == 0 {
            None
        } else {
            Some(self.text)
        };
        (self.file, self.name, ArtifactRaw { done: self.done, partof, text })
    }
}

} // verus!
