//! Absolute database paths.

use vstd::prelude::*;
use crate::strings::{chars_of, string_of_chars};

verus! {

/// An absolute path: the segments after the root (none for `/`).
#[derive(Debug, PartialEq, Eq, Hash)]
pub struct DbPath {
    segments: Vec<String>,
}

#[derive(Debug, PartialEq, Eq)]
pub enum PathError {
    Empty,
    NotAbsolute,
    EmptySegment,
    ForbiddenSegment(String),
    InvalidUtf8,
}

/// Model of a path error.
pub enum PathErr {
    Empty,
    NotAbsolute,
    EmptySegment,
    ForbiddenSegment(Seq<char>),
    InvalidUtf8,
}

impl PathError {
    pub open spec fn model(&self) -> PathErr {
        match self {
            PathError::Empty => PathErr::Empty,
            PathError::NotAbsolute => PathErr::NotAbsolute,
            PathError::EmptySegment => PathErr::EmptySegment,
            PathError::ForbiddenSegment(s) => PathErr::ForbiddenSegment(s@),
            PathError::InvalidUtf8 => PathErr::InvalidUtf8,
        }
    }
}

impl View for DbPath {
    type V = Seq<Seq<char>>;

    closed spec fn view(&self) -> Seq<Seq<char>> {
        Seq::new(self.segments@.len(), |i: int| self.segments@[i]@)
    }
}

// ---------------------------------------------------------------------------
// Specification of parsing

/// `s` with every trailing `/` removed.
pub open spec fn trim_trailing_slashes(s: Seq<char>) -> Seq<char>
    decreases s.len(),
{
    if s.len() > 0 && s.last() == '/' {
        trim_trailing_slashes(s.drop_last())
    } else {
        s
    }
}

/// The pieces of `s` between `/` separators (one piece when there is none).
pub open spec fn split_slash(s: Seq<char>) -> Seq<Seq<char>>
    decreases s.len(),
{
    if s.len() == 0 {
        seq![Seq::empty()]
    } else {
        let r = split_slash(s.drop_last());
        if s.last() == '/' {
            r.push(Seq::empty())
        } else {
            r.update(r.len() - 1, r.last().push(s.last()))
        }
    }
}

pub open spec fn is_dot_segment(seg: Seq<char>) -> bool {
    seg == seq!['.'] || seg == seq!['.', '.']
}

/// What is wrong with one segment of a parsed path, if anything.
pub open spec fn segment_error(seg: Seq<char>) -> Option<PathErr> {
    if seg.len() == 0 {
        Some(PathErr::EmptySegment)
    } else if is_dot_segment(seg) {
        Some(PathErr::ForbiddenSegment(seg))
    } else if seg.contains('\0') {
        Some(PathErr::InvalidUtf8)
    } else {
        None
    }
}

/// The first error among the segments, in order.
pub open spec fn first_segment_error(segs: Seq<Seq<char>>) -> Option<PathErr>
    decreases segs.len(),
{
    if segs.len() == 0 {
        None
    } else {
        match segment_error(segs[0]) {
            Some(e) => Some(e),
            None => first_segment_error(segs.drop_first()),
        }
    }
}

proof fn lemma_split_one(w: Seq<char>)
    requires
        !w.contains('/'),
    ensures
        split_slash(w) == seq![w],
    decreases w.len(),
{
    if w.len() > 0 {
        assert(!w.drop_last().contains('/')) by {
            if w.drop_last().contains('/') {
                let i = choose|i: int| 0 <= i < w.drop_last().len() && w.drop_last()[i] == '/';
                assert(w[i] == '/');
            }
        }
        lemma_split_one(w.drop_last());
        assert(w.last() != '/') by {
            assert(w[w.len() - 1] == w.last());
        }
        assert(w.drop_last().push(w.last()) =~= w);
        assert(seq![w.drop_last()].update(0, w.drop_last().push(w.last())) =~= seq![w]);
    } else {
        assert(w =~= Seq::<char>::empty());
    }
}

proof fn lemma_split_after(x: Seq<char>, w: Seq<char>)
    requires
        !w.contains('/'),
    ensures
        split_slash(x + seq!['/'] + w) == split_slash(x).push(w),
    decreases w.len(),
{
    if w.len() == 0 {
        assert(w =~= Seq::<char>::empty());
        let s = x + seq!['/'] + w;
        assert(s =~= x.push('/'));
        assert(s.drop_last() =~= x);
        assert(s.last() == '/');
        assert(split_slash(s) == split_slash(s.drop_last()).push(Seq::empty()));
    } else {
        let v = w.drop_last();
        assert(!v.contains('/')) by {
            if v.contains('/') {
                let i = choose|i: int| 0 <= i < v.len() && v[i] == '/';
                assert(w[i] == '/');
            }
        }
        lemma_split_after(x, v);
        let s = x + seq!['/'] + w;
        assert(s.drop_last() =~= x + seq!['/'] + v);
        assert(s.last() == w.last());
        assert(w.last() != '/') by {
            assert(w[w.len() - 1] == w.last());
        }
        let r = split_slash(x).push(v);
        assert(r.update(r.len() - 1, r.last().push(w.last())) =~= split_slash(x).push(w)) by {
            assert(v.push(w.last()) =~= w);
        }
    }
}

proof fn lemma_split_joined(segs: Seq<Seq<char>>)
    requires
        segs.len() > 0,
        forall|i: int| 0 <= i < segs.len() ==> !(#[trigger] segs[i]).contains('/'),
    ensures
        joined(segs).len() > 0,
        joined(segs)[0] == '/',
        split_slash(joined(segs).drop_first()) == segs,
    decreases segs.len(),
{
    let init = segs.drop_last();
    let w = segs.last();
    assert(!w.contains('/')) by {
        assert(segs[segs.len() - 1] == w);
    }
    if segs.len() == 1 {
        assert(init =~= Seq::<Seq<char>>::empty());
        assert(joined(segs) =~= seq!['/'] + w);
        assert(joined(segs).drop_first() =~= w);
        lemma_split_one(w);
        assert(segs =~= seq![w]);
    } else {
        assert forall|i: int| 0 <= i < init.len() implies !(#[trigger] init[i]).contains('/') by {
            assert(init[i] == segs[i]);
        }
        lemma_split_joined(init);
        let x = joined(init).drop_first();
        assert(joined(segs).drop_first() =~= x + seq!['/'] + w);
        lemma_split_after(x, w);
        assert(init.push(w) =~= segs);
    }
}

proof fn lemma_no_segment_error(segs: Seq<Seq<char>>)
    requires
        forall|i: int| 0 <= i < segs.len() ==> segment_error(#[trigger] segs[i]) is None,
    ensures
        first_segment_error(segs) is None,
    decreases segs.len(),
{
    if segs.len() > 0 {
        let rest = segs.drop_first();
        assert forall|i: int| 0 <= i < rest.len() implies segment_error(#[trigger] rest[i]) is None by {
            assert(rest[i] == segs[i + 1]);
        }
        lemma_no_segment_error(rest);
    }
}

/// A path's canonical string parses back to the same path: for segments
/// that a path may hold (nonempty, without `/`, not `.` or `..`, without
/// NUL), parsing `path_string` gives the segments back.
pub proof fn lemma_path_string_parses_back(segs: Seq<Seq<char>>)
    requires
        forall|i: int| 0 <= i < segs.len() ==> valid_segment(#[trigger] segs[i]) && !segs[i].contains('\0'),
    ensures
        spec_parse_path(path_string(segs)) == Ok::<Seq<Seq<char>>, PathErr>(segs),
{
    if segs.len() == 0 {
        let s = seq!['/'];
        assert(s.drop_last() =~= Seq::<char>::empty());
        assert(trim_trailing_slashes(Seq::<char>::empty()) == Seq::<char>::empty());
        assert(s.last() == '/');
        assert(trim_trailing_slashes(s) == Seq::<char>::empty());
        assert(path_string(segs) == s);
        assert(segs =~= Seq::<Seq<char>>::empty());
    } else {
        assert forall|i: int| 0 <= i < segs.len() implies !(#[trigger] segs[i]).contains('/') by {
            assert(valid_segment(segs[i]));
        }
        lemma_split_joined(segs);
        let s = joined(segs);
        let w = segs.last();
        assert(valid_segment(segs[segs.len() - 1]));
        assert(s == joined(segs.drop_last()) + seq!['/'] + w);
        assert(s.last() == w.last());
        assert(w.last() != '/') by {
            assert(w[w.len() - 1] == w.last());
        }
        assert(trim_trailing_slashes(s) == s);
        assert forall|i: int| 0 <= i < segs.len() implies segment_error(#[trigger] segs[i]) is None by {
            assert(valid_segment(segs[i]));
        }
        lemma_no_segment_error(segs);
        assert(path_string(segs) == s);
        assert(s.len() > 0 && s[0] == '/');
        assert(split_slash(trim_trailing_slashes(s).drop_first()) == segs);
    }
}

/// What `DbPath::parse` returns for `input`: the segments, or the error.
pub open spec fn spec_parse_path(input: Seq<char>) -> Result<Seq<Seq<char>>, PathErr> {
    if input.len() == 0 {
        Err(PathErr::Empty)
    } else if input[0] != '/' {
        Err(PathErr::NotAbsolute)
    } else {
        let t = trim_trailing_slashes(input);
        if t.len() == 0 {
            Ok(Seq::empty())
        } else {
            let segs = split_slash(t.drop_first());
            match first_segment_error(segs) {
                Some(e) => Err(e),
                None => Ok(segs),
            }
        }
    }
}

/// A segment that a path may hold: nonempty, no `/`, not `.` or `..`.
pub open spec fn valid_segment(seg: Seq<char>) -> bool {
    seg.len() > 0 && !seg.contains('/') && !is_dot_segment(seg)
}

/// The canonical string of a path: `/` for the root, else `/a/b`.
pub open spec fn path_string(segs: Seq<Seq<char>>) -> Seq<char> {
    if segs.len() == 0 {
        seq!['/']
    } else {
        joined(segs)
    }
}

/// `/` before every segment.
pub open spec fn joined(segs: Seq<Seq<char>>) -> Seq<char>
    decreases segs.len(),
{
    if segs.len() == 0 {
        Seq::empty()
    } else {
        joined(segs.drop_last()) + seq!['/'] + segs.last()
    }
}

// ---------------------------------------------------------------------------
// Parsing

fn is_dot_segment_exec(seg: &Vec<char>) -> (r: bool)
    ensures
        r == is_dot_segment(seg@),
{
    if seg.len() == 1 {
        let r = seg[0] == '.';
        assert(r ==> seg@ =~= seq!['.']);
        r
    } else if seg.len() == 2 {
        let r = seg[0] == '.' && seg[1] == '.';
        assert(r ==> seg@ =~= seq!['.', '.']);
        r
    } else {
        false
    }
}

fn contains_char(s: &Vec<char>, c: char) -> (r: bool)
    ensures
        r == s@.contains(c),
{
    let mut i: usize = 0;
    while i < s.len()
        invariant
            i <= s@.len(),
            forall|j: int| 0 <= j < i ==> s@[j] != c,
        decreases s@.len() - i,
    {
        if s[i] == c {
            return true;
        }
        i = i + 1;
    }
    false
}

fn segment_error_exec(seg: &Vec<char>) -> (r: Option<PathError>)
    ensures
        match segment_error(seg@) {
            Some(e) => r matches Some(x) && x.model() == e,
            None => r is None,
        },
{
    if seg.len() == 0 {
        Some(PathError::EmptySegment)
    } else if is_dot_segment_exec(seg) {
        Some(PathError::ForbiddenSegment(string_of_chars(seg.as_slice())))
    } else if contains_char(seg, '\0') {
        Some(PathError::InvalidUtf8)
    } else {
        None
    }
}

proof fn lemma_split_step(s: Seq<char>, i: int)
    requires
        0 <= i < s.len(),
    ensures
        split_slash(s.take(i + 1)) == if s[i] == '/' {
            split_slash(s.take(i)).push(Seq::empty())
        } else {
            let r = split_slash(s.take(i));
            r.update(r.len() - 1, r.last().push(s[i]))
        },
{
    assert(s.take(i + 1).drop_last() =~= s.take(i));
}

proof fn lemma_split_nonempty(s: Seq<char>)
    ensures
        split_slash(s).len() > 0,
    decreases s.len(),
{
    if s.len() > 0 {
        lemma_split_nonempty(s.drop_last());
    }
}

proof fn lemma_trim_props(s: Seq<char>)
    ensures
        trim_trailing_slashes(s).len() <= s.len(),
        trim_trailing_slashes(s) == s.take(trim_trailing_slashes(s).len() as int),
        trim_trailing_slashes(s).len() > 0 ==> trim_trailing_slashes(s).last() != '/',
        forall|j: int|
            trim_trailing_slashes(s).len() <= j < s.len() ==> #[trigger] s[j] == '/',
    decreases s.len(),
{
    if s.len() > 0 && s.last() == '/' {
        lemma_trim_props(s.drop_last());
        let t = trim_trailing_slashes(s.drop_last());
        assert(s.drop_last().take(t.len() as int) =~= s.take(t.len() as int));
        assert forall|j: int| t.len() <= j < s.len() implies #[trigger] s[j] == '/' by {
            if j < s.len() - 1 {
                assert(s.drop_last()[j] == s[j]);
            }
        }
    } else {
        assert(s.take(s.len() as int) =~= s);
    }
}

impl DbPath {
    /// Parse and validate an absolute path string.
    pub fn parse(input: &str) -> (r: Result<DbPath, PathError>)
        ensures
            match spec_parse_path(input@) {
                Ok(segs) => r matches Ok(p) && p@ == segs,
                Err(e) => r matches Err(x) && x.model() == e,
            },
    {
        let chars = chars_of(input);
        if chars.len() == 0 {
            return Err(PathError::Empty);
        }
        if chars[0] != '/' {
            return Err(PathError::NotAbsolute);
        }
        let mut end = chars.len();
        assert(chars@.take(end as int) =~= chars@);
        while end > 0 && chars[end - 1] == '/'
            invariant
                end <= chars@.len(),
                trim_trailing_slashes(chars@) == trim_trailing_slashes(chars@.take(end as int)),
            decreases end,
        {
            assert(chars@.take(end as int).drop_last() =~= chars@.take(end - 1));
            end = end - 1;
        }
        assert(trim_trailing_slashes(chars@.take(end as int)) == chars@.take(end as int));
        let ghost t = chars@.take(end as int);
        assert(trim_trailing_slashes(input@) == t);
        if end == 0 {
            let p = DbPath { segments: Vec::new() };
            assert(p@ =~= Seq::<Seq<char>>::empty());
            return Ok(p);
        }
        let ghost body = t.drop_first();
        // Split the body into segments.
        let mut pieces: Vec<Vec<char>> = Vec::new();
        let mut cur: Vec<char> = Vec::new();
        let mut i: usize = 1;
        assert(body.take(0) =~= Seq::<char>::empty());
        while i < end
            invariant
                1 <= i <= end <= chars@.len(),
                t == chars@.take(end as int),
                body == t.drop_first(),
                Seq::new(pieces@.len(), |j: int| pieces@[j]@).push(cur@) == split_slash(
                    body.take(i - 1),
                ),
            decreases end - i,
        {
            proof {
                lemma_split_step(body, i - 1);
                assert(body[i - 1] == chars@[i as int]);
            }
            if chars[i] == '/' {
                let done = cur;
                pieces.push(done);
                cur = Vec::new();
                assert(Seq::new(pieces@.len(), |j: int| pieces@[j]@).push(cur@) =~= split_slash(
                    body.take(i as int),
                ));
            } else {
                let ghost before = Seq::new(pieces@.len(), |j: int| pieces@[j]@);
                cur.push(chars[i]);
                assert(Seq::new(pieces@.len(), |j: int| pieces@[j]@) == before);
                assert(before.push(cur@) =~= split_slash(body.take(i as int)));
            }
            i = i + 1;
        }
        let last = cur;
        pieces.push(last);
        assert(body.take(end - 1) =~= body);
        let ghost segs = Seq::new(pieces@.len(), |j: int| pieces@[j]@);
        assert(segs == split_slash(body));
        // Check the segments in order.
        let mut k: usize = 0;
        assert(segs.skip(0) =~= segs);
        assert(spec_parse_path(input@) == match first_segment_error(segs) {
            Some(e) => Err(e),
            None => Ok(segs),
        });
        while k < pieces.len()
            invariant
                k <= pieces@.len(),
                spec_parse_path(input@) == match first_segment_error(segs) {
                    Some(e) => Err(e),
                    None => Ok(segs),
                },
                segs == Seq::new(pieces@.len(), |j: int| pieces@[j]@),
                first_segment_error(segs) == first_segment_error(segs.skip(k as int)),
            decreases pieces@.len() - k,
        {
            assert(segs.skip(k as int)[0] == pieces@[k as int]@);
            assert(segs.skip(k as int).drop_first() =~= segs.skip(k + 1));
            match segment_error_exec(&pieces[k]) {
                Some(e) => {
                    assert(first_segment_error(segs) == Some(e.model()));
                    return Err(e);
                },
                None => {},
            }
            k = k + 1;
        }
        let mut segments: Vec<String> = Vec::new();
        let mut m: usize = 0;
        while m < pieces.len()
            invariant
                m <= pieces@.len(),
                spec_parse_path(input@) == Ok::<Seq<Seq<char>>, PathErr>(segs),
                segs == Seq::new(pieces@.len(), |j: int| pieces@[j]@),
                segments@.len() == m,
                Seq::new(segments@.len(), |j: int| segments@[j]@) =~= segs.take(m as int),
            decreases pieces@.len() - m,
        {
            let s = string_of_chars(pieces[m].as_slice());
            let ghost before = segments@;
            segments.push(s);
            assert forall|j: int| 0 <= j < m + 1 implies segments@[j]@ == segs[j] by {
                if j < m {
                    assert(segments@[j] == before[j]);
                    assert(Seq::new(before.len(), |j: int| before[j]@)[j] == segs.take(m as int)[j]);
                } else {
                    assert(segs[j] == pieces@[j]@);
                }
            }
            m = m + 1;
        }
        let p = DbPath { segments };
        assert(p@ =~= segs);
        Ok(p)
    }

    pub fn root() -> (p: DbPath)
        ensures
            p@ == Seq::<Seq<char>>::empty(),
    {
        let p = DbPath { segments: Vec::new() };
        assert(p@ =~= Seq::<Seq<char>>::empty());
        p
    }

    pub fn is_root(&self) -> (b: bool)
        ensures
            b == (self@.len() == 0),
    {
        self.segments.len() == 0
    }

    /// The segments after the root.
    pub fn segments(&self) -> (r: &[String])
        ensures
            r@.len() == self@.len(),
            forall|i: int| 0 <= i < r@.len() ==> (#[trigger] r@[i])@ == self@[i],
    {
        self.segments.as_slice()
    }

    /// Number of segments.
    pub fn depth(&self) -> (n: usize)
        ensures
            n == self@.len(),
    {
        self.segments.len()
    }

    /// The segment at `i`.
    pub fn segment(&self, i: usize) -> (s: &String)
        requires
            i < self@.len(),
        ensures
            s@ == self@[i as int],
    {
        &self.segments[i]
    }

    /// A copy of this path.
    pub fn clone_path(&self) -> (p: DbPath)
        ensures
            p@ == self@,
    {
        let mut segments: Vec<String> = Vec::new();
        let mut i: usize = 0;
        while i < self.segments.len()
            invariant
                i <= self.segments@.len(),
                segments@.len() == i,
                Seq::new(segments@.len(), |j: int| segments@[j]@) =~= self@.take(i as int),
            decreases self.segments@.len() - i,
        {
            let ghost before = segments@;
            segments.push(self.segments[i].clone());
            assert forall|j: int| 0 <= j < i + 1 implies segments@[j]@ == self@[j] by {
                if j < i {
                    assert(segments@[j] == before[j]);
                    assert(Seq::new(before.len(), |j: int| before[j]@)[j] == self@.take(i as int)[j]);
                } else {
                    assert(self@[j] == self.segments@[j]@);
                }
            }
            i = i + 1;
        }
        let p = DbPath { segments };
        assert(p@ =~= self@);
        p
    }

    /// The path with one more segment.
    pub fn join(&self, segment: &str) -> (r: Result<DbPath, PathError>)
        ensures
            segment@.len() == 0 ==> r matches Err(PathError::EmptySegment),
            segment@.len() > 0 && (is_dot_segment(segment@) || segment@.contains('/')) ==> (r matches Err(
                PathError::ForbiddenSegment(s),
            ) && s@ == segment@),
            valid_segment(segment@) ==> (r matches Ok(p) && p@ == self@.push(segment@)),
    {
        let cs = chars_of(segment);
        if cs.len() == 0 {
            return Err(PathError::EmptySegment);
        }
        if is_dot_segment_exec(&cs) || contains_char(&cs, '/') {
            return Err(PathError::ForbiddenSegment(segment.to_owned()));
        }
        let mut p = self.clone_path();
        p.segments.push(segment.to_owned());
        assert(p@ =~= self@.push(segment@));
        Ok(p)
    }

    /// The path without its last segment; `None` for the root.
    pub fn parent(&self) -> (r: Option<DbPath>)
        ensures
            self@.len() == 0 ==> r is None,
            self@.len() > 0 ==> (r matches Some(p) && p@ == self@.drop_last()),
    {
        if self.segments.len() == 0 {
            return None;
        }
        let mut p = self.clone_path();
        p.segments.pop();
        assert(p@ =~= self@.drop_last());
        Some(p)
    }

    /// The last segment; `None` for the root.
    pub fn last_segment(&self) -> (r: Option<&String>)
        ensures
            self@.len() == 0 ==> r is None,
            self@.len() > 0 ==> (r matches Some(s) && s@ == self@.last()),
    {
        if self.segments.len() == 0 {
            None
        } else {
            Some(&self.segments[self.segments.len() - 1])
        }
    }

    /// Canonical string form (`/` or `/a/b`).
    pub fn as_str(&self) -> (s: String)
        ensures
            s@ == path_string(self@),
    {
        let mut out = String::new();
        if self.segments.len() == 0 {
            crate::strings::string_push(&mut out, '/');
            assert(out@ =~= seq!['/']);
            return out;
        }
        let mut i: usize = 0;
        while i < self.segments.len()
            invariant
                i <= self.segments@.len(),
                out@ == joined(self@.take(i as int)),
            decreases self.segments@.len() - i,
        {
            crate::strings::string_push(&mut out, '/');
            out.append(self.segments[i].as_str());
            assert(self@.take(i + 1).drop_last() =~= self@.take(i as int));
            i = i + 1;
        }
        assert(self@.take(i as int) =~= self@);
        out
    }
}

} // verus!
