//! What of an artifact is shown, and how it is laid out for display.
use vstd::prelude::*;
use vstd::string::*;
use crate::implemented::Impl;
use crate::name::{Name, key_of};
use crate::names::{Names, has_key, lemma_has_key_subset};
use crate::project::Project;
use crate::text::{split_on, split_str, strs_view, trim, trim_str};

verus! {

/// Names joined by `, `.
pub open spec fn joined(s: Seq<Seq<char>>) -> Seq<char>
    decreases s.len(),
{
    if s.len() == 0 {
        Seq::empty()
    } else if s.len() == 1 {
        s[0]
    } else {
        joined(s.drop_last()) + seq![',', ' '] + s.last()
    }
}

/// Format names as a list separated by `, `.
pub fn names(list: &Vec<&Name>) -> (r: String)
    ensures
        r@ == joined(list@.map_values(|n: &Name| n@)),
{
    let ghost v = list@.map_values(|n: &Name| n@);
    if list.len() == 0 {
        assert(v.len() == 0);
        return String::new();
    }
    let mut s = String::from_str(list[0].as_str());
    assert(v.subrange(0, 1) =~= seq![v[0]]);
    let mut i: usize = 1;
    while i < list.len()
        invariant
            1 <= i <= list@.len(),
            v == list@.map_values(|n: &Name| n@),
            s@ == joined(v.subrange(0, i as int)),
        decreases list@.len() - i,
    {
        proof {
            reveal_strlit(", ");
        }
        s.append(", ");
        s.append(list[i].as_str());
        assert(v.subrange(0, i + 1).drop_last() =~= v.subrange(0, i as int));
        i = i + 1;
    }
    assert(v.subrange(0, i as int) =~= v);
    s
}

/// What to show of an artifact.
#[derive(Clone, Copy, Debug, PartialEq, Eq, Structural)]
pub struct FmtSettings {
    pub long: bool,
    pub recurse: u8,
    pub path: bool,
    pub parts: bool,
    pub partof: bool,
    pub loc_path: bool,
    pub text: bool,
}

impl Default for FmtSettings {
    fn default() -> (r: FmtSettings)
        ensures
            r == (FmtSettings {
                long: false,
                recurse: 0,
                path: false,
                parts: false,
                partof: false,
                loc_path: false,
                text: false,
            }),
    {
        FmtSettings {
            long: false,
            recurse: 0,
            path: false,
            parts: false,
            partof: false,
            loc_path: false,
            text: false,
        }
    }
}

/// An artifact as it will be shown: each part is there where selected.
#[derive(Debug)]
pub struct FmtArtifact {
    pub long: bool,
    pub path: Option<String>,
    pub parts: Option<Vec<FmtArtifact>>,
    pub partof: Option<Vec<Name>>,
    pub loc_path: Option<String>,
    pub text: Option<String>,
    pub name: Name,
}

/// The first paragraph of some lines: each line trimmed and followed by a
/// space, up to the first blank line.
pub open spec fn para_from(ls: Seq<Seq<char>>) -> Seq<char>
    decreases ls.len(),
{
    if ls.len() == 0 || trim(ls[0]).len() == 0 {
        Seq::empty()
    } else {
        trim(ls[0]) + seq![' '] + para_from(ls.drop_first())
    }
}

/// The first paragraph of a text.
pub open spec fn first_para(s: Seq<char>) -> Seq<char> {
    para_from(split_on(s, '\n'))
}

/// The file of an implementation's primary code location.
pub open spec fn primary_file(imp: Impl) -> Option<Seq<char>> {
    match imp {
        Impl::Code(c) => match c.primary {
            Some(l) => Some(l.file@),
            None => None,
        },
        _ => None,
    }
}

pub open spec fn opt_string_view(o: Option<String>) -> Option<Seq<char>> {
    match o {
        Some(s) => Some(s@),
        None => None,
    }
}

/// The first paragraph of a text, as a string.
pub fn first_paragraph(text: &str) -> (r: String)
    ensures
        r@ == first_para(text@),
{
    let lines = split_str(text, '\n');
    let ghost ls = strs_view(lines@);
    let mut s = String::new();
    let mut i: usize = 0;
    assert(ls.subrange(0, ls.len() as int) =~= ls);
    assert(s@ + para_from(ls) =~= para_from(ls));
    while i < lines.len()
        invariant
            i <= lines@.len(),
            ls == strs_view(lines@),
            ls == split_on(text@, '\n'),
            (i < ls.len() ==> s@ + para_from(ls.subrange(i as int, ls.len() as int)) == first_para(text@)),
            (i == ls.len() ==> s@ == first_para(text@)),
        decreases lines@.len() - i,
    {
        let ghost rest = ls.subrange(i as int, ls.len() as int);
        assert(rest[0] == lines@[i as int]@);
        let l = trim_str(lines[i]);
        if l.unicode_len() == 0 {
            assert(s@ + para_from(rest) =~= s@);
            return s;
        }
        proof {
            reveal_strlit(" ");
        }
        s.append(l);
        s.append(" ");
        assert(rest.drop_first() =~= ls.subrange(i + 1, ls.len() as int));
        proof {
            if i + 1 == ls.len() {
                assert(para_from(rest.drop_first()) =~= Seq::<char>::empty());
            }
        }
        i = i + 1;
    }
    s
}

/// A part shown by its name alone.
pub open spec fn is_leaf(f: FmtArtifact) -> bool {
    &&& !f.long
    &&& f.path is None
    &&& f.parts is None
    &&& f.partof is None
    &&& f.loc_path is None
    &&& f.text is None
}

/// What holds of each shown part: at depth zero, or where its name was
/// shown already, it is a bare name; where it is laid out, its name is
/// then among those shown.
pub open spec fn part_shown(
    f: FmtArtifact,
    recurse: u8,
    before: Seq<Seq<char>>,
    after: Seq<Seq<char>>,
) -> bool {
    &&& (recurse == 0 ==> is_leaf(f))
    &&& (has_key(before, key_of(f.name@)) ==> is_leaf(f))
    &&& (!is_leaf(f) ==> has_key(after, key_of(f.name@)))
}

fn leaf(name: &Name) -> (r: FmtArtifact)
    ensures
        r.name@ == name@,
        is_leaf(r),
{
    FmtArtifact {
        long: false,
        path: None,
        parts: None,
        partof: None,
        loc_path: None,
        text: None,
        name: name.clone(),
    }
}

/// Lay out the artifact of `name` as `fmtset` selects; its parts are laid
/// out in turn, `recurse` levels deep, each at most once over `displayed`.
pub fn fmt_artifact(
    name: &Name,
    project: &Project,
    fmtset: &FmtSettings,
    recurse: u8,
    displayed: &mut Names,
) -> (r: FmtArtifact)
    requires
        old(displayed).wf(),
        exists|i: int|
            0 <= i < project.artifacts@.len() && key_of(#[trigger] project.artifacts@[i].name@) == key_of(
                name@,
            ),
    ensures
        final(displayed).wf(),
        old(displayed)@.to_set().subset_of(final(displayed)@.to_set()),
        r.name@ == name@,
        r.long == fmtset.long,
        exists|i: int|
            0 <= i < project.artifacts@.len() && key_of(#[trigger] project.artifacts@[i].name@) == key_of(
                name@,
            ) && {
                let a = project.artifacts@[i];
                &&& opt_string_view(r.path) == if fmtset.path {
                    Some(a.file@)
                } else {
                    None
                }
                &&& match r.partof {
                    Some(v) => fmtset.partof && v@.map_values(|n: Name| n@) == a.partof@,
                    None => !fmtset.partof,
                }
                &&& match r.parts {
                    Some(v) => fmtset.parts && v@.len() == a.parts@.len() && forall|j: int|
                        0 <= j < v@.len() ==> (#[trigger] v@[j]).name@ == a.parts@[j] && part_shown(
                            v@[j],
                            recurse,
                            old(displayed)@,
                            final(displayed)@,
                        ),
                    None => !fmtset.parts,
                }
                &&& opt_string_view(r.loc_path) == if fmtset.loc_path {
                    primary_file(a.impl_)
                } else {
                    None
                }
                &&& opt_string_view(r.text) == if !fmtset.text {
                    None
                } else if fmtset.long {
                    Some(a.text@)
                } else {
                    Some(first_para(a.text@))
                }
            },
    decreases recurse,
{
    let idx = match project.find(name) {
        Some(i) => i,
        None => {
            proof {
                let i = choose|i: int|
                    0 <= i < project.artifacts@.len() && key_of(project.artifacts@[i].name@) == key_of(name@);
                assert(key_of(project.artifacts@[i].name@) != key_of(name@));
            }
            0
        },
    };
    let artifact = &project.artifacts[idx];
    let path = if fmtset.path {
        Some(artifact.file.clone())
    } else {
        None
    };
    let parts = if fmtset.parts {
        let mut parts: Vec<FmtArtifact> = Vec::new();
        let mut j: usize = 0;
        while j < artifact.parts.len()
            invariant
                j <= artifact.parts@.len(),
                displayed.wf(),
                old(displayed)@.to_set().subset_of(displayed@.to_set()),
                parts@.len() == j,
                forall|q: int| 0 <= q < j ==> (#[trigger] parts@[q]).name@ == artifact.parts@[q],
                forall|q: int| 0 <= q < j ==> part_shown(#[trigger] parts@[q], recurse, old(displayed)@, displayed@),
            decreases artifact.parts@.len() - j,
        {
            let p = artifact.parts.get(j);
            let ghost d0 = displayed@;
            let part = if recurse == 0 || displayed.contains(p) {
                leaf(p)
            } else {
                match project.find(p) {
                    Some(_) => {
                        let ghost before = displayed@.to_set();
                        let f = fmt_artifact(p, project, fmtset, recurse - 1, displayed);
                        let ghost mid = displayed@.to_set();
                        let added = displayed.insert(p.clone());
                        proof {
                            if !added {
                                let z = choose|z: int| 0 <= z < displayed@.len() && key_of(displayed@[z]) == key_of(p@);
                            } else {
                                assert(displayed@.to_set().contains(p@));
                            }
                        }
                        assert(before.subset_of(displayed@.to_set())) by {
                            assert(before.subset_of(mid));
                        }
                        f
                    },
                    None => leaf(p),
                }
            };
            proof {
                if has_key(old(displayed)@, key_of(p@)) {
                    lemma_has_key_subset(old(displayed)@, d0, key_of(p@));
                }
                if !is_leaf(part) {
                    assert(displayed@.to_set().contains(p@) || has_key(displayed@, key_of(p@)));
                    if displayed@.to_set().contains(p@) {
                        let z = choose|z: int| 0 <= z < displayed@.len() && displayed@[z] == p@;
                        assert(key_of(displayed@[z]) == key_of(p@));
                    }
                }
                assert forall|q: int| 0 <= q < j implies part_shown(#[trigger] parts@[q], recurse, old(displayed)@, displayed@) by {
                    if !is_leaf(parts@[q]) {
                        lemma_has_key_subset(d0, displayed@, key_of(parts@[q].name@));
                    }
                }
            }
            parts.push(part);
            j = j + 1;
        }
        Some(parts)
    } else {
        None
    };
    let partof = if fmtset.partof {
        let mut v: Vec<Name> = Vec::new();
        let mut j: usize = 0;
        while j < artifact.partof.len()
            invariant
                j <= artifact.partof@.len(),
                v@.len() == j,
                forall|q: int| 0 <= q < j ==> (#[trigger] v@[q])@ == artifact.partof@[q],
            decreases artifact.partof@.len() - j,
        {
            v.push(artifact.partof.get(j).clone());
            j = j + 1;
        }
        assert(v@.map_values(|n: Name| n@) =~= artifact.partof@);
        Some(v)
    } else {
        None
    };
    let loc_path = if fmtset.loc_path {
        match &artifact.impl_ {
            Impl::Code(c) => match &c.primary {
                Some(l) => Some(l.file.clone()),
                None => None,
            },
            _ => None,
        }
    } else {
        None
    };
    let text = if fmtset.text {
        if fmtset.long {
            Some(artifact.text.clone())
        } else {
            Some(first_paragraph(artifact.text.as_str()))
        }
    } else {
        None
    };
    let r = FmtArtifact { long: fmtset.long, path, parts, partof, loc_path, text, name: name.clone() };
    assert(key_of(project.artifacts@[idx as int].name@) == key_of(name@));
    r
}

} // verus!
