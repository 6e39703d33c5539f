//! The names of the references of issues.
//!
//! The references of an issue live under `refs/dit/` and the id of the
//! issue, and those that were fetched from a remote repository under
//! `refs/remotes/`, the name of the remote, `dit/` and the id:
//!
//! ```text
//! refs/dit/<issue>/head
//! refs/dit/<issue>/leaves/<leaf>
//! refs/remotes/<remote>/dit/<issue>/head
//! refs/remotes/<remote>/dit/<issue>/leaves/<leaf>
//! ```
//!
//! Ids are written as 40 lowercase hexadecimal digits.

use vstd::prelude::*;
use crate::oid::{is_hex, is_oid_text, lemma_hex_injective, lemma_hex_is_oid_text, Oid};
use crate::text::{
    char_views, chars_of, free_of, join_chars, join_with, lemma_join_split, lemma_split_join_with,
    same_chars, split, split_on, string_of,
};

verus! {

/// The kinds of references of an issue.
#[derive(Clone, Copy, Debug, PartialEq, Eq, Structural)]
pub enum IssueRefType {
    /// Heads and leaves alike; used to ask for references.
    Any,
    /// The reference that names the current state of an issue.
    Head,
    /// A reference to a message that has no reply yet.
    Leaf,
    /// Neither of them.
    Unknown,
}

impl IssueRefType {
    /// Whether a reference of the kind `kind`, which is `Head` or `Leaf`, is
    /// one that `self` asks for.
    pub open spec fn admits(self, kind: IssueRefType) -> bool {
        match self {
            IssueRefType::Any => kind == IssueRefType::Head || kind == IssueRefType::Leaf,
            IssueRefType::Head => kind == IssueRefType::Head,
            IssueRefType::Leaf => kind == IssueRefType::Leaf,
            IssueRefType::Unknown => false,
        }
    }

    /// Whether a reference of the kind `kind` is one that `self` asks for.
    pub fn accepts(self, kind: IssueRefType) -> (r: bool)
        ensures
            r == self.admits(kind),
    {
        match self {
            IssueRefType::Any => kind == IssueRefType::Head || kind == IssueRefType::Leaf,
            IssueRefType::Head => kind == IssueRefType::Head,
            IssueRefType::Leaf => kind == IssueRefType::Leaf,
            IssueRefType::Unknown => false,
        }
    }

    /// The word for this kind: `head`, `leaf`, and `unknown` for the others.
    pub fn word(self) -> (r: &'static str)
        ensures
            r@ == match self {
                IssueRefType::Head => "head"@,
                IssueRefType::Leaf => "leaf"@,
                _ => "unknown"@,
            },
    {
        match self {
            IssueRefType::Head => "head",
            IssueRefType::Leaf => "leaf",
            _ => "unknown",
        }
    }
}

/// The name of a reference of an issue, taken apart.
#[derive(Clone, Debug, PartialEq, Eq)]
pub struct IssueRefName {
    /// The issue.
    pub issue: Oid,
    /// The message that a leaf reference is named after; a head has none.
    pub leaf: Option<Oid>,
    /// The remote repository that the reference was fetched from; a local
    /// reference has none.
    pub remote: Option<String>,
}

/// What an `IssueRefName` stands for; the ids are given by their texts.
pub struct IssueRefNameView {
    pub issue: Seq<char>,
    pub leaf: Option<Seq<char>>,
    pub remote: Option<Seq<char>>,
}

impl View for IssueRefName {
    type V = IssueRefNameView;

    open spec fn view(&self) -> IssueRefNameView {
        IssueRefNameView {
            issue: self.issue.hex(),
            leaf: match self.leaf {
                Some(l) => Some(l.hex()),
                None => None,
            },
            remote: match self.remote {
                Some(r) => Some(r@),
                None => None,
            },
        }
    }
}

impl IssueRefNameView {
    /// The kind of the reference: a head, or a leaf.
    pub open spec fn kind(self) -> IssueRefType {
        if self.leaf is Some {
            IssueRefType::Leaf
        } else {
            IssueRefType::Head
        }
    }

    /// Whether this is the name of a reference: the ids are texts of ids,
    /// and the name of the remote, if there is one, is not empty and holds
    /// no `/`.
    pub open spec fn valid(self) -> bool {
        &&& is_oid_text(self.issue)
        &&& self.leaf is Some ==> is_oid_text(self.leaf.unwrap())
        &&& self.remote is Some ==> self.remote.unwrap().len() > 0 && free_of(
            self.remote.unwrap(),
            '/',
        )
    }

    /// The parts of the name, which `/` separates.
    pub open spec fn parts(self) -> Seq<Seq<char>> {
        (match self.remote {
            None => seq!["refs"@, "dit"@],
            Some(r) => seq!["refs"@, "remotes"@, r, "dit"@],
        }) + seq![self.issue] + (match self.leaf {
            None => seq!["head"@],
            Some(l) => seq!["leaves"@, l],
        })
    }

    /// The name of the reference.
    pub open spec fn name(self) -> Seq<char> {
        join_with(self.parts(), '/')
    }
}

/// The issue and the leaf that the parts behind `dit` name, with the given
/// remote, if these parts are an id and `head`, or an id, `leaves` and an
/// id.
pub open spec fn match_tail(t: Seq<Seq<char>>, remote: Option<Seq<char>>) -> Option<
    IssueRefNameView,
> {
    if t.len() == 2 && is_oid_text(t[0]) && t[1] == "head"@ {
        Some(IssueRefNameView { issue: t[0], leaf: None, remote })
    } else if t.len() == 3 && is_oid_text(t[0]) && t[1] == "leaves"@ && is_oid_text(t[2]) {
        Some(IssueRefNameView { issue: t[0], leaf: Some(t[2]), remote })
    } else {
        None
    }
}

/// The reference that the parts of a name stand for, if they are those of
/// a reference of an issue.
pub open spec fn match_parts(p: Seq<Seq<char>>) -> Option<IssueRefNameView> {
    if p.len() >= 2 && p[0] == "refs"@ && p[1] == "dit"@ {
        match_tail(p.skip(2), None)
    } else if p.len() >= 4 && p[0] == "refs"@ && p[1] == "remotes"@ && p[2].len() > 0 && p[3]
        == "dit"@ {
        match_tail(p.skip(4), Some(p[2]))
    } else {
        None
    }
}

/// The reference of an issue that a name stands for, if it is the name of
/// one.
pub open spec fn parse_name(name: Seq<char>) -> Option<IssueRefNameView> {
    match_parts(split_on(name, '/'))
}

/// The words of the names hold no `/`, and `dit` is not `remotes`.
proof fn lemma_words()
    ensures
        free_of("refs"@, '/'),
        free_of("dit"@, '/'),
        free_of("remotes"@, '/'),
        free_of("head"@, '/'),
        free_of("leaves"@, '/'),
        "dit"@ != "remotes"@,
        "head"@.len() == 4,
        "leaves"@.len() == 6,
{
    reveal_strlit("refs");
    reveal_strlit("dit");
    reveal_strlit("remotes");
    reveal_strlit("head");
    reveal_strlit("leaves");
    assert("dit"@.len() == 3);
    assert("remotes"@.len() == 7);
}

/// The text of an id holds no `/`.
proof fn lemma_oid_text_free(s: Seq<char>)
    requires
        is_oid_text(s),
    ensures
        free_of(s, '/'),
{
    assert forall|i: int| 0 <= i < s.len() implies #[trigger] s[i] != '/' by {
        assert(is_hex(s[i]));
    }
}

/// The name of a reference is read back as that reference.
pub proof fn lemma_name_round_trip(n: IssueRefNameView)
    requires
        n.valid(),
    ensures
        parse_name(n.name()) == Some(n),
{
    lemma_words();
    lemma_oid_text_free(n.issue);
    if n.leaf is Some {
        lemma_oid_text_free(n.leaf.unwrap());
    }
    let p = n.parts();
    assert forall|i: int| 0 <= i < p.len() implies free_of(#[trigger] p[i], '/') by {}
    lemma_split_join_with(p, '/');
    match n.remote {
        None => {
            match n.leaf {
                None => {
                    assert(p.skip(2) =~= seq![n.issue, "head"@]);
                },
                Some(l) => {
                    assert(p.skip(2) =~= seq![n.issue, "leaves"@, l]);
                },
            }
        },
        Some(r) => {
            match n.leaf {
                None => {
                    assert(p.skip(4) =~= seq![n.issue, "head"@]);
                },
                Some(l) => {
                    assert(p.skip(4) =~= seq![n.issue, "leaves"@, l]);
                },
            }
        },
    }
}

/// What a name is read as is a reference with that name; so a name that is
/// not the name of a reference of an issue is read as none.
pub proof fn lemma_parse_is_name(name: Seq<char>)
    ensures
        parse_name(name) is Some ==> parse_name(name).unwrap().valid() && parse_name(
            name,
        ).unwrap().name() == name,
{
    lemma_words();
    lemma_join_split(name, '/');
    let p = split_on(name, '/');
    if parse_name(name) is Some {
        let n = parse_name(name).unwrap();
        if p.len() >= 2 && p[0] == "refs"@ && p[1] == "dit"@ {
            let t = p.skip(2);
            assert(t[0] == p[2]);
            assert(t[1] == p[3]);
            if t.len() == 3 {
                assert(t[2] == p[4]);
            }
            assert(n.parts() =~= p);
        } else {
            let t = p.skip(4);
            assert(t[0] == p[4]);
            assert(t[1] == p[5]);
            if t.len() == 3 {
                assert(t[2] == p[6]);
            }
            assert(free_of(p[2], '/'));
            assert(n.parts() =~= p);
        }
    }
}

/// Whether the part `v` is the word `word`.
fn is_word(v: &Vec<char>, word: &str) -> (r: bool)
    ensures
        r == (v@ == word@),
{
    let w = chars_of(word);
    same_chars(v.as_slice(), w.as_slice())
}

/// Reads the parts behind `dit`, which start at `from`.
fn parse_tail(parts: &Vec<Vec<char>>, from: usize, remote: Option<String>) -> (r: Option<
    IssueRefName,
>)
    requires
        from <= parts.len(),
    ensures
        r is Some <==> match_tail(
            char_views(parts@).skip(from as int),
            match remote {
                Some(x) => Some(x@),
                None => None,
            },
        ) is Some,
        r is Some ==> r.unwrap()@ == match_tail(
            char_views(parts@).skip(from as int),
            match remote {
                Some(x) => Some(x@),
                None => None,
            },
        ).unwrap(),
{
    let ghost t = char_views(parts@).skip(from as int);
    let n = parts.len() - from;
    if n != 2 && n != 3 {
        return None;
    }
    assert(t[0] == parts@[from as int]@);
    assert(t[1] == parts@[from + 1]@);
    let issue = match Oid::from_chars(parts[from].as_slice()) {
        Some(o) => o,
        None => {
            return None;
        },
    };
    if n == 2 {
        if is_word(&parts[from + 1], "head") {
            Some(IssueRefName { issue, leaf: None, remote })
        } else {
            None
        }
    } else {
        assert(t[2] == parts@[from + 2]@);
        if !is_word(&parts[from + 1], "leaves") {
            return None;
        }
        match Oid::from_chars(parts[from + 2].as_slice()) {
            Some(l) => Some(IssueRefName { issue, leaf: Some(l), remote }),
            None => None,
        }
    }
}

impl IssueRefName {
    /// Reads the name of a reference. The result is `None` unless `name` is
    /// the name of a reference of an issue.
    pub fn parse(name: &str) -> (r: Option<IssueRefName>)
        ensures
            r is Some <==> parse_name(name@) is Some,
            r is Some ==> r.unwrap()@ == parse_name(name@).unwrap(),
    {
        let v = chars_of(name);
        let parts = split(v.as_slice(), '/');
        let ghost p = char_views(parts@);
        let n = parts.len();
        if n >= 2 {
            assert(p[0] == parts@[0]@ && p[1] == parts@[1]@);
        }
        if n >= 2 && is_word(&parts[0], "refs") && is_word(&parts[1], "dit") {
            parse_tail(&parts, 2, None)
        } else if n >= 4 && is_word(&parts[0], "refs") && is_word(&parts[1], "remotes")
            && parts[2].len() > 0 && is_word(&parts[3], "dit") {
            assert(p[2] == parts@[2]@ && p[3] == parts@[3]@);
            let remote = string_of(parts[2].as_slice());
            parse_tail(&parts, 4, Some(remote))
        } else {
            proof {
                if n >= 4 {
                    assert(p[2] == parts@[2]@ && p[3] == parts@[3]@);
                }
            }
            None
        }
    }

    /// The kind of the reference: a head, or a leaf.
    pub fn kind(&self) -> (r: IssueRefType)
        ensures
            r == self@.kind(),
    {
        if self.leaf.is_some() {
            IssueRefType::Leaf
        } else {
            IssueRefType::Head
        }
    }

    /// The name of the reference.
    pub fn to_name(&self) -> (r: String)
        ensures
            r@ == self@.name(),
    {
        let mut parts: Vec<Vec<char>> = Vec::new();
        parts.push(chars_of("refs"));
        match &self.remote {
            Some(r) => {
                parts.push(chars_of("remotes"));
                parts.push(chars_of(r.as_str()));
            },
            None => {},
        }
        parts.push(chars_of("dit"));
        parts.push(self.issue.to_chars());
        match &self.leaf {
            Some(l) => {
                parts.push(chars_of("leaves"));
                parts.push(l.to_chars());
            },
            None => {
                parts.push(chars_of("head"));
            },
        }
        proof {
            assert(char_views(parts@) =~= self@.parts());
        }
        let v = join_chars(&parts, '/');
        string_of(v.as_slice())
    }
}

impl IssueRefType {
    /// The issue and the kind of the reference with the given name, or
    /// `None` where it is not the name of a reference of an issue.
    pub fn of_ref(name: &str) -> (r: Option<(Oid, IssueRefType)>)
        ensures
            r is Some <==> parse_name(name@) is Some,
            r is Some ==> r.unwrap().0.hex() == parse_name(name@).unwrap().issue && r.unwrap().1
                == parse_name(name@).unwrap().kind(),
    {
        match IssueRefName::parse(name) {
            Some(n) => Some((n.issue, n.kind())),
            None => None,
        }
    }
}

/// Reading the name of a reference gives the reference back: the same
/// issue, the same leaf and the same remote.
pub proof fn lemma_parse_to_name(n: IssueRefName, r: IssueRefName)
    requires
        n@.remote is Some ==> n@.remote.unwrap().len() > 0 && free_of(n@.remote.unwrap(), '/'),
        Some(r@) == parse_name(n@.name()),
    ensures
        r.issue == n.issue,
        r.leaf == n.leaf,
        r@.remote == n@.remote,
{
    lemma_hex_is_oid_text(n.issue);
    if n.leaf is Some {
        lemma_hex_is_oid_text(n.leaf.unwrap());
    }
    lemma_name_round_trip(n@);
    lemma_hex_injective(r.issue, n.issue);
    if n.leaf is Some {
        lemma_hex_injective(r.leaf.unwrap(), n.leaf.unwrap());
    }
}

/// A reference: a name and the commit that it points to.
#[derive(Clone, Debug, PartialEq, Eq)]
pub struct Reference {
    pub name: String,
    pub target: Oid,
}

impl Reference {
    /// A copy of this reference.
    pub fn copy(&self) -> (r: Reference)
        ensures
            r == *self,
    {
        Reference { name: self.name.clone(), target: self.target }
    }
}

/// The remote repository that a reference with the given name was fetched
/// from: the part of the name behind `refs/remotes/`, up to the next `/`. A
/// name that does not start so is that of a local reference, which has none.
pub open spec fn remote_of(name: Seq<char>) -> Option<Seq<char>> {
    let p = split_on(name, '/');
    if p.len() >= 3 && p[0] == "refs"@ && p[1] == "remotes"@ {
        Some(p[2])
    } else {
        None
    }
}

/// The remote of the name of a reference of an issue is the one that the
/// name is read with.
pub proof fn lemma_remote_of_name(name: Seq<char>)
    requires
        parse_name(name) is Some,
    ensures
        remote_of(name) == parse_name(name).unwrap().remote,
{
    lemma_words();
}

/// The remote repository that a reference with the given name was fetched
/// from, if it is not a local one.
pub fn remote_name(name: &str) -> (r: Option<Vec<char>>)
    ensures
        r is Some <==> remote_of(name@) is Some,
        r is Some ==> r.unwrap()@ == remote_of(name@).unwrap(),
{
    let v = chars_of(name);
    let mut parts = split(v.as_slice(), '/');
    let ghost p = char_views(parts@);
    if parts.len() >= 3 && is_word(&parts[0], "refs") && is_word(&parts[1], "remotes") {
        assert(p[0] == parts@[0]@ && p[1] == parts@[1]@ && p[2] == parts@[2]@);
        Some(parts.swap_remove(2))
    } else {
        proof {
            if parts.len() >= 3 {
                assert(p[0] == parts@[0]@ && p[1] == parts@[1]@);
            }
        }
        None
    }
}

/// The refspec that fetches the references of one issue from a remote:
/// `+refs/dit/<issue>/*:refs/remotes/<remote>/dit/<issue>/*`.
pub open spec fn issue_refspec_text(remote: Seq<char>, issue: Oid) -> Seq<char> {
    "+refs/dit/"@ + issue.hex() + "/*:refs/remotes/"@ + remote + "/dit/"@ + issue.hex() + "/*"@
}

/// The refspec that fetches the references of all issues from a remote:
/// `+refs/dit/*:refs/remotes/<remote>/dit/*`.
pub open spec fn all_issues_refspec_text(remote: Seq<char>) -> Seq<char> {
    "+refs/dit/*:refs/remotes/"@ + remote + "/dit/*"@
}

/// Appends the characters of `s`.
fn push_all(out: &mut Vec<char>, s: &str)
    ensures
        final(out)@ == old(out)@ + s@,
{
    let mut v = chars_of(s);
    out.append(&mut v);
}

/// The refspec that fetches the references of the issue `issue` from the
/// remote `remote`.
pub fn issue_refspec(remote: &str, issue: &Oid) -> (r: String)
    ensures
        r@ == issue_refspec_text(remote@, *issue),
{
    let hex = issue.to_hex();
    let mut out: Vec<char> = Vec::new();
    push_all(&mut out, "+refs/dit/");
    push_all(&mut out, hex.as_str());
    push_all(&mut out, "/*:refs/remotes/");
    push_all(&mut out, remote);
    push_all(&mut out, "/dit/");
    push_all(&mut out, hex.as_str());
    push_all(&mut out, "/*");
    proof {
        assert(out@ =~= issue_refspec_text(remote@, *issue));
    }
    string_of(out.as_slice())
}

/// The refspec that fetches the references of all issues from the remote
/// `remote`.
pub fn all_issues_refspec(remote: &str) -> (r: String)
    ensures
        r@ == all_issues_refspec_text(remote@),
{
    let mut out: Vec<char> = Vec::new();
    push_all(&mut out, "+refs/dit/*:refs/remotes/");
    push_all(&mut out, remote);
    push_all(&mut out, "/dit/*");
    proof {
        assert(out@ =~= all_issues_refspec_text(remote@));
    }
    string_of(out.as_slice())
}

} // verus!
