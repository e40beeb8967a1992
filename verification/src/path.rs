//! Relative directory names built by pushing slash-free components, with the
//! file-name and equality behaviour of Unix paths.
use vstd::prelude::*;
use crate::text::{chars_of, string_from_chars};

verus! {

/// The abstract content of a directory name: its non-empty, slash-free segments
/// and whether the text ends with a separator.
pub struct DirView {
    pub segments: Seq<Seq<char>>,
    pub trailing_sep: bool,
}

/// The segments joined with `/`.
pub open spec fn join_segments(segs: Seq<Seq<char>>) -> Seq<char>
    decreases segs.len(),
{
    if segs.len() == 0 {
        seq![]
    } else if segs.len() == 1 {
        segs[0]
    } else {
        join_segments(segs.drop_last()) + seq!['/'] + segs.last()
    }
}

pub open spec fn is_dot(s: Seq<char>) -> bool {
    s == seq!['.']
}

pub open spec fn is_dot_dot(s: Seq<char>) -> bool {
    s == seq!['.', '.']
}

/// A path component as `Path::components` yields it: a leading `.` is kept, a
/// `.` further on is dropped.
pub open spec fn kept_segments(segs: Seq<Seq<char>>) -> Seq<Seq<char>>
    decreases segs.len(),
{
    if segs.len() == 0 {
        seq![]
    } else if segs.len() > 1 && is_dot(segs.last()) {
        kept_segments(segs.drop_last())
    } else {
        kept_segments(segs.drop_last()).push(segs.last())
    }
}

/// The segments without the `.` segments at their end (a leading `.` stays).
pub open spec fn trim_dots(segs: Seq<Seq<char>>) -> Seq<Seq<char>>
    decreases segs.len(),
{
    if segs.len() > 1 && is_dot(segs.last()) {
        trim_dots(segs.drop_last())
    } else {
        segs
    }
}

/// A name that `Path::file_name` reports as such: non-empty, slash-free and
/// neither `.` nor `..`.
pub open spec fn is_normal_name(name: Seq<char>) -> bool {
    &&& name.len() > 0
    &&& !name.contains('/')
    &&& !is_dot(name)
    &&& !is_dot_dot(name)
}

impl DirView {
    pub open spec fn wf(self) -> bool {
        &&& forall|i: int|
            0 <= i < self.segments.len() ==> #[trigger] self.segments[i].len() > 0
                && !self.segments[i].contains('/')
        &&& self.trailing_sep ==> self.segments.len() > 0
    }

    /// The text of the path.
    pub open spec fn text(self) -> Seq<char> {
        join_segments(self.segments) + if self.trailing_sep {
            seq!['/']
        } else {
            seq![]
        }
    }

    /// `PathBuf::push` of a relative, slash-free component: a separator is added
    /// unless the path is empty or already ends with one.
    pub open spec fn pushed(self, comp: Seq<char>) -> DirView {
        if comp.len() == 0 {
            DirView { segments: self.segments, trailing_sep: self.segments.len() > 0 }
        } else {
            DirView { segments: self.segments.push(comp), trailing_sep: false }
        }
    }

    /// Two paths are equal when their components are (`Path`'s `==`).
    pub open spec fn same_path(self, other: DirView) -> bool {
        kept_segments(self.segments) == kept_segments(other.segments)
    }

    /// `Path::file_name`: the last component, when it is a normal name.
    pub open spec fn file_name(self) -> Option<Seq<char>> {
        let t = trim_dots(self.segments);
        if t.len() > 0 && !is_dot(t.last()) && !is_dot_dot(t.last()) {
            Some(t.last())
        } else {
            None
        }
    }

    /// `Path::with_file_name` on a path that has a file name: the path up to the
    /// previous component, then `name`.
    pub open spec fn with_file_name(self, name: Seq<char>) -> DirView {
        DirView {
            segments: trim_dots(trim_dots(self.segments).drop_last()).push(name),
            trailing_sep: false,
        }
    }
}

/// A relative directory name, as the benchmark reports lay it out.
#[derive(Debug)]
pub struct DirectoryName {
    segments: Vec<String>,
    trailing_sep: bool,
}

impl DirectoryName {
    #[verifier::type_invariant]
    closed spec fn well_formed(self) -> bool {
        self@.wf()
    }
}

impl Clone for DirectoryName {
    fn clone(&self) -> (r: Self)
        ensures
            r@ == self@,
    {
        proof {
            use_type_invariant(self);
        }
        let segs = self.copy_segments(self.segments.len());
        assert(self@.segments.take(self.segments.len() as int) =~= self@.segments);
        DirectoryName { segments: segs, trailing_sep: self.trailing_sep }
    }
}

impl PartialEq for DirectoryName {
    fn eq(&self, other: &Self) -> (r: bool) {
        self.same_path(other)
    }
}

impl Eq for DirectoryName {
}

impl vstd::std_specs::cmp::PartialEqSpecImpl for DirectoryName {
    open spec fn obeys_eq_spec() -> bool {
        true
    }

    open spec fn eq_spec(&self, other: &DirectoryName) -> bool {
        self@.same_path(other@)
    }
}

impl View for DirectoryName {
    type V = DirView;

    closed spec fn view(&self) -> DirView {
        DirView {
            segments: self.segments@.map_values(|s: String| s@),
            trailing_sep: self.trailing_sep,
        }
    }
}

pub fn is_dot_string(s: &String) -> (r: bool)
    ensures
        r == is_dot(s@),
{
    let cs = chars_of(s.as_str());
    let r = cs.len() == 1 && cs[0] == '.';
    proof {
        if r {
            assert(cs@ =~= seq!['.']);
        }
    }
    r
}

pub fn is_dot_dot_string(s: &String) -> (r: bool)
    ensures
        r == is_dot_dot(s@),
{
    let cs = chars_of(s.as_str());
    let r = cs.len() == 2 && cs[0] == '.' && cs[1] == '.';
    proof {
        if r {
            assert(cs@ =~= seq!['.', '.']);
        }
    }
    r
}

pub proof fn lemma_trim_dots_prefix(segs: Seq<Seq<char>>)
    ensures
        trim_dots(segs).len() <= segs.len(),
        trim_dots(segs) =~= segs.take(trim_dots(segs).len() as int),
        segs.len() > 0 ==> trim_dots(segs).len() > 0,
    decreases segs.len(),
{
    if segs.len() > 1 && is_dot(segs.last()) {
        lemma_trim_dots_prefix(segs.drop_last());
    }
}

/// Index just past the last segment that `trim_dots` keeps.
fn trimmed_len(segs: &Vec<String>, n: usize) -> (e: usize)
    requires
        n <= segs.len(),
    ensures
        e == trim_dots(segs@.map_values(|s: String| s@).take(n as int)).len(),
{
    let ghost v = segs@.map_values(|s: String| s@);
    let mut e = n;
    proof {
        lemma_trim_dots_prefix(v.take(n as int));
    }
    while e > 1 && is_dot_string(&segs[e - 1])
        invariant
            e <= n <= segs.len(),
            v == segs@.map_values(|s: String| s@),
            trim_dots(v.take(e as int)) == trim_dots(v.take(n as int)),
        decreases e,
    {
        assert(v.take(e as int).drop_last() =~= v.take(e - 1));
        e = e - 1;
    }
    proof {
        assert(v.take(e as int).len() == e);
    }
    e
}

impl DirectoryName {
    /// The empty path (`PathBuf::new()`).
    pub fn empty() -> (d: DirectoryName)
        ensures
            d@ == (DirView { segments: Seq::empty(), trailing_sep: false }),
            d@.wf(),
    {
        let d = DirectoryName { segments: Vec::new(), trailing_sep: false };
        assert(d@.segments =~= Seq::<Seq<char>>::empty());
        d
    }

    /// Appends a slash-free component, as `PathBuf::push` does.
    pub fn push(&mut self, comp: String)
        requires
            !comp@.contains('/'),
        ensures
            final(self)@ == old(self)@.pushed(comp@),
            final(self)@.wf(),
    {
        proof {
            use_type_invariant(&*self);
        }
        let ghost old_v = self@;
        let mut segs = self.copy_segments(self.segments.len());
        assert(old_v.segments.take(self.segments.len() as int) =~= old_v.segments);
        if comp.as_str().is_empty() {
            let trailing_sep = segs.len() > 0;
            *self = DirectoryName { segments: segs, trailing_sep };
        } else {
            let ghost before = segs@;
            segs.push(comp);
            assert(segs@ =~= before.push(comp));
            assert(segs@.map_values(|s: String| s@) =~= before.map_values(|s: String| s@).push(
                comp@,
            ));
            *self = DirectoryName { segments: segs, trailing_sep: false };
        }
    }

    /// Copies of the first `n` segments.
    fn copy_segments(&self, n: usize) -> (r: Vec<String>)
        requires
            n <= self@.segments.len(),
        ensures
            r@.map_values(|s: String| s@) == self@.segments.take(n as int),
    {
        let ghost v = self@.segments;
        let mut segs: Vec<String> = Vec::new();
        let mut i: usize = 0;
        while i < n
            invariant
                n <= self.segments.len(),
                i <= n,
                v == self.segments@.map_values(|s: String| s@),
                segs@.map_values(|s: String| s@) == v.take(i as int),
            decreases n - i,
        {
            let ghost before = segs@;
            let seg = self.segments[i].clone();
            assert(seg@ == v[i as int]);
            segs.push(seg);
            assert(segs@ =~= before.push(seg));
            assert(segs@.map_values(|s: String| s@) =~= before.map_values(|s: String| s@).push(
                seg@,
            ));
            assert(segs@.map_values(|s: String| s@) =~= v.take(i as int + 1));
            i = i + 1;
        }
        segs
    }

    /// The text of the path, as `Path::to_str` shows it.
    pub fn to_path_string(&self) -> (r: String)
        ensures
            r@ == self@.text(),
    {
        let ghost v = self@.segments;
        let mut r = String::new();
        let mut i: usize = 0;
        while i < self.segments.len()
            invariant
                i <= self.segments.len(),
                v == self.segments@.map_values(|s: String| s@),
                r@ == join_segments(v.take(i as int)),
            decreases self.segments.len() - i,
        {
            let ghost before = r@;
            assert(v.take(i as int + 1).drop_last() =~= v.take(i as int));
            if i > 0 {
                r.push('/');
            }
            r.push_str(self.segments[i].as_str());
            i = i + 1;
            proof {
                if i == 1 {
                    assert(r@ =~= join_segments(v.take(1)));
                } else {
                    assert(r@ =~= join_segments(v.take(i as int)));
                }
            }
        }
        assert(v.take(self.segments.len() as int) =~= v);
        if self.trailing_sep {
            r.push('/');
        }
        assert(r@ =~= self@.text());
        r
    }

    /// The components that `Path::components` yields.
    fn kept(&self) -> (r: Vec<String>)
        ensures
            r@.map_values(|s: String| s@) == kept_segments(self@.segments),
    {
        let ghost v = self@.segments;
        let mut r: Vec<String> = Vec::new();
        let mut i: usize = 0;
        while i < self.segments.len()
            invariant
                i <= self.segments.len(),
                v == self.segments@.map_values(|s: String| s@),
                r@.map_values(|s: String| s@) == kept_segments(v.take(i as int)),
            decreases self.segments.len() - i,
        {
            assert(v.take(i as int + 1).drop_last() =~= v.take(i as int));
            if i == 0 || !is_dot_string(&self.segments[i]) {
                let ghost before = r@;
                r.push(self.segments[i].clone());
                assert(r@.map_values(|s: String| s@) =~= before.map_values(|s: String| s@).push(
                    v[i as int],
                ));
            }
            i = i + 1;
        }
        assert(v.take(self.segments.len() as int) =~= v);
        r
    }

    /// `Path`'s `==`: the two paths have the same components.
    pub fn same_path(&self, other: &DirectoryName) -> (r: bool)
        ensures
            r == self@.same_path(other@),
    {
        let a = self.kept();
        let b = other.kept();
        let ghost av = a@.map_values(|s: String| s@);
        let ghost bv = b@.map_values(|s: String| s@);
        if a.len() != b.len() {
            assert(av.len() != bv.len());
            return false;
        }
        let mut i: usize = 0;
        while i < a.len()
            invariant
                a.len() == b.len(),
                i <= a.len(),
                av == a@.map_values(|s: String| s@),
                bv == b@.map_values(|s: String| s@),
                av == kept_segments(self@.segments),
                bv == kept_segments(other@.segments),
                forall|j: int| 0 <= j < i ==> av[j] == bv[j],
            decreases a.len() - i,
        {
            if a[i] != b[i] {
                assert(av[i as int] != bv[i as int]);
                assert(av != bv);
                return false;
            }
            i = i + 1;
        }
        assert(av =~= bv);
        true
    }

    /// `Path::file_name`.
    pub fn file_name(&self) -> (r: Option<String>)
        ensures
            r matches Some(s) ==> self@.file_name() == Some(s@),
            r is None ==> self@.file_name() is None,
            self@.file_name() matches Some(n) ==> n.len() > 0 && !n.contains('/'),
    {
        proof {
            use_type_invariant(self);
        }
        let ghost v = self@.segments;
        let e = trimmed_len(&self.segments, self.segments.len());
        assert(v.take(self.segments.len() as int) =~= v);
        proof {
            lemma_trim_dots_prefix(v);
        }
        if e == 0 {
            return None;
        }
        let last = &self.segments[e - 1];
        assert(trim_dots(v).last() == last@);
        if is_dot_string(last) || is_dot_dot_string(last) {
            None
        } else {
            Some(last.clone())
        }
    }

    /// `Path::with_file_name` for a path that has a file name and a normal name.
    pub fn with_file_name(&self, name: String) -> (r: DirectoryName)
        requires
            self@.file_name() is Some,
            is_normal_name(name@),
        ensures
            r@ == self@.with_file_name(name@),
            r@.wf(),
    {
        proof {
            use_type_invariant(self);
        }
        let ghost v = self@.segments;
        let e = trimmed_len(&self.segments, self.segments.len());
        assert(v.take(self.segments.len() as int) =~= v);
        proof {
            lemma_trim_dots_prefix(v);
        }
        let p = trimmed_len(&self.segments, e - 1);
        proof {
            assert(trim_dots(v).drop_last() =~= v.take(e - 1));
            lemma_trim_dots_prefix(v.take(e - 1));
        }
        let mut segs = self.copy_segments(p);
        let ghost before = segs@;
        segs.push(name);
        assert(segs@ =~= before.push(name));
        assert(segs@.map_values(|s: String| s@) =~= v.take(p as int).push(name@));
        assert forall|i: int| 0 <= i < segs@.len() implies #[trigger] segs@[i]@.len() > 0
            && !segs@[i]@.contains('/') by {
            if i < p {
                assert(segs@[i]@ == v[i]);
            }
        }
        let r = DirectoryName { segments: segs, trailing_sep: false };
        assert(trim_dots(trim_dots(v).drop_last()) =~= v.take(p as int));
        assert(r@.segments =~= v.take(p as int).push(name@));
        r
    }
}

/// What a path gets as its file name it gives back: renaming the file of a
/// path, or pushing a normal name onto it, makes that name its file name.
pub proof fn lemma_file_name_after_write(d: DirView, name: Seq<char>)
    requires
        is_normal_name(name),
    ensures
        d.with_file_name(name).file_name() == Some(name),
        d.pushed(name).file_name() == Some(name),
{
    let w = d.with_file_name(name);
    assert(trim_dots(w.segments) == w.segments);
    assert(w.segments.last() == name);
    let p = d.pushed(name);
    assert(trim_dots(p.segments) == p.segments);
    assert(p.segments.last() == name);
}

} // verus!
