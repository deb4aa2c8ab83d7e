//! Paths below the exposed directory, written the Unix way.

use vstd::prelude::*;
use crate::server::FilesystemServer;
use crate::text::same_text;

verus! {

/// The pieces of `raw` between its slashes, empty ones too.
pub open spec fn segments(raw: Seq<char>) -> Seq<Seq<char>>
    decreases raw.len(),
{
    if raw.len() == 0 {
        seq![raw]
    } else {
        let before = segments(raw.drop_last());
        if raw.last() == '/' {
            before.push(seq![])
        } else {
            before.drop_last().push(before.last().push(raw.last()))
        }
    }
}

/// Whether a segment names something: neither nothing, nor the directory that it stands in.
pub open spec fn names_item(segment: Seq<char>) -> bool {
    segment.len() > 0 && segment != "."@
}

/// The segments that name something.
pub open spec fn named(segments: Seq<Seq<char>>) -> Seq<Seq<char>> {
    segments.filter(|segment: Seq<char>| names_item(segment))
}

/// Whether a path may be made of `part`: it names an item of the directory that it stands in.
pub open spec fn is_part(part: Seq<char>) -> bool {
    &&& names_item(part)
    &&& part != ".."@
    &&& !part.contains('/')
    &&& !part.contains('\0')
}

/// Whether each of `parts` leads one level down, so that together they cannot lead out of the
/// directory that they start from.
pub open spec fn confined(parts: Seq<Seq<char>>) -> bool {
    forall|i: int| 0 <= i < parts.len() ==> is_part(#[trigger] parts[i])
}

/// The parts with a slash between each two.
pub open spec fn joined(parts: Seq<Seq<char>>) -> Seq<char>
    decreases parts.len(),
{
    if parts.len() == 0 {
        seq![]
    } else if parts.len() == 1 {
        parts[0]
    } else {
        joined(parts.drop_last()) + "/"@ + parts.last()
    }
}

/// How a path is written.
pub open spec fn displayed(parts: Seq<Seq<char>>) -> Seq<char> {
    if parts.len() == 0 {
        "."@
    } else {
        joined(parts)
    }
}

/// What [`clean_path`](crate::FilesystemServer::clean_path) makes of `raw`: the parts of the path,
/// or the message with which it is refused.
pub open spec fn cleaned(raw: Seq<char>, allow_root: bool) -> Result<Seq<Seq<char>>, Seq<char>> {
    if raw.contains('\0') {
        Err("path contains a NUL byte"@)
    } else if raw.len() > 0 && raw[0] == '/' {
        Err("absolute paths are not allowed"@)
    } else if segments(raw).contains(".."@) {
        Err("parent traversal (`..`) is not allowed"@)
    } else if named(segments(raw)).len() == 0 && !allow_root {
        Err("path must name an item below the configured root"@)
    } else {
        Ok(named(segments(raw)))
    }
}

/// The texts that a sequence of strings holds.
pub open spec fn texts(strings: Seq<String>) -> Seq<Seq<char>> {
    strings.map_values(|s: String| s@)
}

/// A path that starts from the exposed directory and cannot lead out of it. It has no parts where
/// it is the exposed directory itself.
#[derive(Debug)]
pub struct RelPath {
    parts: Vec<String>,
}

impl View for RelPath {
    type V = Seq<Seq<char>>;

    closed spec fn view(&self) -> Seq<Seq<char>> {
        texts(self.parts@)
    }
}

/// There is always a segment, and only the last one can be touched by what follows.
pub proof fn lemma_segments_grow(raw: Seq<char>, c: char)
    ensures
        segments(raw).len() > 0,
        segments(raw.push(c)) == (if c == '/' {
            segments(raw).push(seq![])
        } else {
            segments(raw).drop_last().push(segments(raw).last().push(c))
        }),
    decreases raw.len(),
{
    assert(raw.push(c).drop_last() =~= raw);
    if raw.len() > 0 {
        lemma_segments_grow(raw.drop_last(), raw.last());
        assert(raw.drop_last().push(raw.last()) =~= raw);
    }
}

proof fn lemma_named_push(segments: Seq<Seq<char>>, segment: Seq<char>)
    ensures
        named(segments.push(segment)) == (if names_item(segment) {
            named(segments).push(segment)
        } else {
            named(segments)
        }),
{
    reveal(Seq::filter);
    assert(segments.push(segment).drop_last() =~= segments);
}

proof fn lemma_contains_push<A>(s: Seq<A>, a: A, x: A)
    ensures
        s.push(a).contains(x) <==> s.contains(x) || a == x,
{
    let t = s.push(a);
    if s.contains(x) {
        let i = choose|i: int| 0 <= i < s.len() && s[i] == x;
        assert(t[i] == x);
    }
    if a == x {
        assert(t[s.len() as int] == x);
    }
}

/// What is known of a path that was read up to some character.
struct Segmenter {
    nul: bool,
    parent: bool,
    parts: Vec<String>,
    current: String,
}

impl Segmenter {
    spec fn has_read(&self, raw: Seq<char>) -> bool {
        let complete = segments(raw).drop_last();
        &&& self.nul == raw.contains('\0')
        &&& self.parent == complete.contains(".."@)
        &&& texts(self.parts@) == named(complete)
        &&& self.current@ == segments(raw).last()
    }

    fn new() -> (s: Segmenter)
        ensures
            s.has_read(seq![]),
    {
        let s = Segmenter { nul: false, parent: false, parts: Vec::new(), current: String::new() };
        proof {
            let none = Seq::<Seq<char>>::empty();
            lemma_named_of(none);
            assert(segments(seq![]).drop_last() =~= none);
            assert(texts(s.parts@) =~= none);
        }
        s
    }

    /// Ends the segment that is being read.
    fn end_segment(self, Ghost(raw): Ghost<Seq<char>>) -> (s: Segmenter)
        requires
            self.has_read(raw),
        ensures
            s.nul == self.nul,
            s.parent == segments(raw).contains(".."@),
            texts(s.parts@) == named(segments(raw)),
            s.current@ == Seq::<char>::empty(),
    {
        let Segmenter { nul, parent, mut parts, current } = self;
        let ghost complete = segments(raw).drop_last();
        proof {
            lemma_segments_grow(raw, '/');
            assert(segments(raw) =~= complete.push(current@));
            lemma_contains_push(complete, current@, ".."@);
            lemma_named_push(complete, current@);
        }
        let parent = parent || same_text(current.as_str(), "..");
        if !current.as_str().is_empty() && !same_text(current.as_str(), ".") {
            let ghost before = parts@;
            parts.push(current);
            assert(texts(parts@) =~= texts(before).push(current@));
        }
        Segmenter { nul, parent, parts, current: String::new() }
    }

    fn read(self, c: char, Ghost(raw): Ghost<Seq<char>>) -> (s: Segmenter)
        requires
            self.has_read(raw),
        ensures
            s.has_read(raw.push(c)),
    {
        proof {
            lemma_segments_grow(raw, c);
            lemma_contains_push(raw, c, '\0');
        }
        let nul = self.nul || c == '\0';
        if c == '/' {
            let mut s = self.end_segment(Ghost(raw));
            s.nul = nul;
            assert(segments(raw).push(seq![]).drop_last() =~= segments(raw));
            s
        } else {
            let mut s = self;
            s.nul = nul;
            s.current.push(c);
            assert(segments(raw.push(c)).drop_last() =~= segments(raw).drop_last());
            s
        }
    }
}

/// Every character of a segment is one of the path's, and none is a slash.
proof fn lemma_segment_chars(raw: Seq<char>)
    ensures
        forall|i: int, k: int|
            0 <= i < segments(raw).len() && 0 <= k < segments(raw)[i].len() ==> {
                &&& raw.contains(#[trigger] segments(raw)[i][k])
                &&& segments(raw)[i][k] != '/'
            },
    decreases raw.len(),
{
    if raw.len() > 0 {
        let rest = raw.drop_last();
        let c = raw.last();
        lemma_segment_chars(rest);
        lemma_segments_grow(rest, c);
        assert(rest.push(c) =~= raw);
        assert forall|i: int, k: int|
            0 <= i < segments(raw).len() && 0 <= k < segments(raw)[i].len() implies {
            &&& raw.contains(#[trigger] segments(raw)[i][k])
            &&& segments(raw)[i][k] != '/'
        } by {
            let x = segments(raw)[i][k];
            lemma_contains_push(rest, c, x);
            if i < segments(rest).len() && k < segments(rest)[i].len() {
                assert(segments(rest)[i][k] == x);
            }
        }
    }
}

proof fn lemma_named_of(segments: Seq<Seq<char>>)
    ensures
        forall|i: int| 0 <= i < named(segments).len() ==> {
            &&& names_item(#[trigger] named(segments)[i])
            &&& segments.contains(named(segments)[i])
        },
        (forall|i: int| 0 <= i < segments.len() ==> names_item(#[trigger] segments[i])) ==> named(
            segments,
        ) == segments,
    decreases segments.len(),
{
    reveal(Seq::filter);
    if segments.len() > 0 {
        let rest = segments.drop_last();
        let last = segments.last();
        lemma_named_of(rest);
        assert(rest.push(last) =~= segments);
        lemma_named_push(rest, last);
        assert forall|i: int| 0 <= i < named(segments).len() implies {
            &&& names_item(#[trigger] named(segments)[i])
            &&& segments.contains(named(segments)[i])
        } by {
            lemma_contains_push(rest, last, named(segments)[i]);
            if i < named(rest).len() {
                assert(named(rest)[i] == named(segments)[i]);
            }
        }
        if forall|i: int| 0 <= i < segments.len() ==> names_item(#[trigger] segments[i]) {
            assert forall|i: int| 0 <= i < rest.len() implies names_item(#[trigger] rest[i]) by {
                assert(rest[i] == segments[i]);
            }
            assert(names_item(segments[segments.len() - 1]));
        }
    } else {
        assert(named(segments) =~= segments);
    }
}

/// A path that was not refused leads nowhere but below the directory that it starts from: no part
/// of it is empty, is `.` or `..`, or holds a slash or a NUL.
pub proof fn law_clean_path_is_confined(raw: Seq<char>, allow_root: bool)
    requires
        cleaned(raw, allow_root) is Ok,
    ensures
        confined(cleaned(raw, allow_root)->Ok_0),
        cleaned(raw, allow_root)->Ok_0.len() > 0 || allow_root,
{
    let parts = cleaned(raw, allow_root)->Ok_0;
    lemma_segment_chars(raw);
    lemma_named_of(segments(raw));
    assert forall|i: int| 0 <= i < parts.len() implies is_part(#[trigger] parts[i]) by {
        let part = parts[i];
        assert(segments(raw).contains(part));
        let j = choose|j: int| 0 <= j < segments(raw).len() && segments(raw)[j] == part;
        assert forall|k: int| 0 <= k < part.len() implies part[k] != '/' && part[k] != '\0' by {
            assert(raw.contains(segments(raw)[j][k]));
        }
    }
}

/// Text without a slash only makes the last segment longer.
proof fn lemma_segments_extend(raw: Seq<char>, tail: Seq<char>)
    requires
        !tail.contains('/'),
    ensures
        segments(raw).len() > 0,
        segments(raw + tail) == segments(raw).drop_last().push(segments(raw).last() + tail),
    decreases tail.len(),
{
    if tail.len() == 0 {
        lemma_segments_grow(raw, '/');
        assert(raw + tail =~= raw);
        assert(segments(raw).last() + tail =~= segments(raw).last());
        assert(segments(raw).drop_last().push(segments(raw).last()) =~= segments(raw));
    } else {
        let rest = tail.drop_last();
        let c = tail.last();
        lemma_contains_push(rest, c, '/');
        assert(rest.push(c) =~= tail);
        lemma_segments_extend(raw, rest);
        lemma_segments_grow(raw + rest, c);
        assert((raw + rest).push(c) =~= raw + tail);
        assert((segments(raw).last() + rest).push(c) =~= segments(raw).last() + tail);
        assert(segments(raw + tail) =~= segments(raw).drop_last().push(
            segments(raw).last() + tail,
        ));
    }
}

proof fn lemma_joined(parts: Seq<Seq<char>>)
    requires
        confined(parts),
        parts.len() > 0,
    ensures
        segments(joined(parts)) == parts,
        !joined(parts).contains('\0'),
        joined(parts).len() > 0,
        joined(parts)[0] != '/',
    decreases parts.len(),
{
    reveal_strlit("/");
    let part = parts.last();
    assert(is_part(parts[parts.len() - 1]));
    if parts.len() == 1 {
        lemma_segments_extend(seq![], part);
        assert(Seq::<char>::empty() + part =~= part);
        assert(segments(part) =~= parts);
        assert(part.contains(part[0]));
    } else {
        let rest = parts.drop_last();
        assert forall|i: int| 0 <= i < rest.len() implies is_part(#[trigger] rest[i]) by {
            assert(rest[i] == parts[i]);
        }
        lemma_joined(rest);
        let head = joined(rest).push('/');
        assert(joined(rest) + "/"@ =~= head);
        lemma_segments_grow(joined(rest), '/');
        lemma_segments_extend(head, part);
        assert(Seq::<char>::empty() + part =~= part);
        assert(segments(head + part) =~= parts);
        assert forall|k: int| 0 <= k < joined(parts).len() implies joined(parts)[k] != '\0' by {
            if k < joined(rest).len() {
                assert(joined(rest).contains(joined(rest)[k]));
            } else if k > joined(rest).len() {
                assert(part.contains(part[k - joined(rest).len() - 1]));
            }
        }
        assert(joined(parts)[0] == joined(rest)[0]);
    }
}

/// What is reported as an item's path names that item when it is sent back as a path.
pub proof fn law_displayed_path_names_the_same_item(parts: Seq<Seq<char>>, allow_root: bool)
    requires
        confined(parts),
        parts.len() > 0 || allow_root,
    ensures
        cleaned(displayed(parts), allow_root) == Ok::<_, Seq<char>>(parts),
{
    if parts.len() > 0 {
        lemma_joined(parts);
        assert forall|i: int| 0 <= i < parts.len() implies names_item(#[trigger] parts[i]) by {
            assert(is_part(parts[i]));
        }
        lemma_named_of(parts);
        if parts.contains(".."@) {
            let i = choose|i: int| 0 <= i < parts.len() && parts[i] == ".."@;
            assert(is_part(parts[i]));
        }
    } else {
        reveal_strlit(".");
        reveal_strlit("..");
        let dot = "."@;
        lemma_segments_extend(seq![], dot);
        assert(Seq::<char>::empty() + dot =~= dot);
        assert(segments(dot) =~= seq![dot]);
        lemma_named_push(seq![], dot);
        assert(Seq::<Seq<char>>::empty().push(dot) =~= seq![dot]);
        lemma_named_of(Seq::<Seq<char>>::empty());
        assert(named(segments(dot)) =~= parts);
    }
}

proof fn lemma_segments_of_joined(segs: Seq<Seq<char>>, raw: Seq<char>)
    requires
        segs.len() > 0,
        forall|i: int| 0 <= i < segs.len() ==> !(#[trigger] segs[i]).contains('/'),
        raw.push('/') == segs.map_values(|s: Seq<char>| s.push('/')).flatten(),
    ensures
        segments(raw) == segs,
    decreases segs.len(),
{
    let f = |s: Seq<char>| s.push('/');
    let rest = segs.drop_last();
    let last = segs.last();
    assert(!segs[segs.len() - 1].contains('/'));
    assert(segs.map_values(f) =~= rest.map_values(f).push(f(last)));
    rest.map_values(f).lemma_flatten_push(f(last));
    let head = rest.map_values(f).flatten();
    assert(raw.push('/') == head + last.push('/'));
    assert(raw =~= raw.push('/').drop_last());
    assert(raw =~= head + last);
    if rest.len() == 0 {
        assert(rest.map_values(f) =~= seq![]);
        assert(head =~= seq![]);
        lemma_segments_extend(seq![], last);
        assert(Seq::<char>::empty() + last =~= last);
        assert(segments(raw) =~= segs);
    } else {
        let front = rest.drop_last();
        assert(rest.map_values(f) =~= front.map_values(f).push(f(rest.last())));
        front.map_values(f).lemma_flatten_push(f(rest.last()));
        let before = head.drop_last();
        assert(head.last() == '/');
        assert(before.push('/') =~= head);
        assert forall|i: int| 0 <= i < rest.len() implies !(#[trigger] rest[i]).contains('/') by {
            assert(rest[i] == segs[i]);
        }
        lemma_segments_of_joined(rest, before);
        lemma_segments_grow(before, '/');
        lemma_segments_extend(head, last);
        assert(Seq::<char>::empty() + last =~= last);
        assert(segments(raw) =~= segs);
    }
}

/// A path is read piece by piece: `pieces` are what stands between the slashes of `raw`. It is
/// refused for a NUL, for a slash at its start, for a piece `..`, and, unless `allow_root`, where it
/// has no piece but empty ones and `.`; otherwise its parts are the other pieces, in their order.
pub proof fn law_path_is_read_between_slashes(
    pieces: Seq<Seq<char>>,
    raw: Seq<char>,
    allow_root: bool,
)
    requires
        pieces.len() > 0,
        forall|i: int| 0 <= i < pieces.len() ==> !(#[trigger] pieces[i]).contains('/'),
        raw.push('/') == pieces.map_values(|s: Seq<char>| s.push('/')).flatten(),
    ensures
        ({
            let parts = pieces.filter(|s: Seq<char>| s.len() > 0 && s != "."@);
            cleaned(raw, allow_root) == (if raw.contains('\0') {
                Err("path contains a NUL byte"@)
            } else if raw.len() > 0 && raw[0] == '/' {
                Err("absolute paths are not allowed"@)
            } else if pieces.contains(".."@) {
                Err("parent traversal (`..`) is not allowed"@)
            } else if parts.len() == 0 && !allow_root {
                Err("path must name an item below the configured root"@)
            } else {
                Ok::<_, Seq<char>>(parts)
            })
        }),
{
    lemma_segments_of_joined(pieces, raw);
    let f = |s: Seq<char>| s.len() > 0 && s != "."@;
    let g = |segment: Seq<char>| names_item(segment);
    assert(f =~= g);
}

/// A path is written as its parts with a slash between each two, or as a dot where it has none.
pub proof fn law_path_is_written_with_slashes(parts: Seq<Seq<char>>)
    ensures
        parts.len() == 0 ==> displayed(parts) == "."@,
        parts.len() > 0 ==> displayed(parts).push('/') == parts.map_values(
            |s: Seq<char>| s.push('/'),
        ).flatten(),
    decreases parts.len(),
{
    if parts.len() > 0 {
        let f = |s: Seq<char>| s.push('/');
        let rest = parts.drop_last();
        let last = parts.last();
        assert(parts.map_values(f) =~= rest.map_values(f).push(f(last)));
        rest.map_values(f).lemma_flatten_push(f(last));
        law_path_is_written_with_slashes(rest);
        reveal_strlit("/");
        if rest.len() == 0 {
            assert(rest.map_values(f) =~= seq![]);
            assert(displayed(parts).push('/') =~= f(last));
        } else {
            assert(displayed(parts) == joined(rest) + "/"@ + last);
            assert(joined(rest) + "/"@ =~= joined(rest).push('/'));
            assert(displayed(parts).push('/') =~= displayed(rest).push('/') + f(last));
        }
    }
}

/// The parts of a path that stays below a directory are just those that name an item of a directory:
/// not empty, not `.` nor `..`, and without slash and NUL.
pub proof fn law_confined_parts_name_items(parts: Seq<Seq<char>>)
    ensures
        confined(parts) <==> forall|i: int|
            0 <= i < parts.len() ==> {
                &&& (#[trigger] parts[i]).len() > 0
                &&& parts[i] != "."@
                &&& parts[i] != ".."@
                &&& !parts[i].contains('/')
                &&& !parts[i].contains('\0')
            },
{
    if confined(parts) {
        assert forall|i: int| 0 <= i < parts.len() implies {
            &&& (#[trigger] parts[i]).len() > 0
            &&& parts[i] != "."@
            &&& parts[i] != ".."@
            &&& !parts[i].contains('/')
            &&& !parts[i].contains('\0')
        } by {
            assert(is_part(parts[i]));
        }
    }
}

impl RelPath {
    #[verifier::type_invariant]
    spec fn is_confined(&self) -> bool {
        confined(self@)
    }

    /// How many parts the path has.
    pub fn len(&self) -> (n: usize)
        ensures
            n == self@.len(),
    {
        self.parts.len()
    }

    /// The path as it is written: its parts with slashes between them, or a dot.
    pub fn display(&self) -> (text: String)
        ensures
            text@ == displayed(self@),
            confined(self@),
    {
        proof {
            use_type_invariant(self);
        }
        let n = self.parts.len();
        if n == 0 {
            return String::from_str(".");
        }
        assert(self@.take(n as int) =~= self@);
        self.display_first(n)
    }

    /// The first `n` parts of the path as they are written.
    pub fn display_first(&self, n: usize) -> (text: String)
        requires
            1 <= n <= self@.len(),
        ensures
            text@ == displayed(self@.take(n as int)),
    {
        let mut text: String = String::new();
        for i in 0..n
            invariant
                n <= self@.len(),
                text@ == joined(self@.take(i as int)),
        {
            if i > 0 {
                text.append("/");
            }
            text.append(self.parts[i].as_str());
            proof {
                let more = self@.take(i + 1);
                assert(more.drop_last() =~= self@.take(i as int));
                assert(more.last() == self.parts@[i as int]@);
                assert(text@ =~= joined(more));
            }
        }
        text
    }

    /// The same path.
    pub fn copy(&self) -> (path: RelPath)
        ensures
            path@ == self@,
    {
        assert(self@.take(self@.len() as int) =~= self@);
        self.first(self.parts.len())
    }

    /// Whether two paths are the same.
    pub fn same(&self, other: &RelPath) -> (same: bool)
        ensures
            same == (self@ == other@),
    {
        if self.parts.len() != other.parts.len() {
            return false;
        }
        for i in 0..self.parts.len()
            invariant
                self@.len() == other@.len(),
                forall|j: int| 0 <= j < i ==> self@[j] == other@[j],
        {
            if !same_text(self.parts[i].as_str(), other.parts[i].as_str()) {
                assert(self@[i as int] != other@[i as int]);
                return false;
            }
        }
        assert(self@ =~= other@);
        true
    }

    /// The path that the first `n` parts make.
    pub fn first(&self, n: usize) -> (path: RelPath)
        requires
            n <= self@.len(),
        ensures
            path@ == self@.take(n as int),
    {
        proof {
            use_type_invariant(self);
        }
        let mut parts: Vec<String> = Vec::new();
        for i in 0..n
            invariant
                n <= self@.len(),
                texts(parts@) =~= self@.take(i as int),
        {
            let ghost before = parts@;
            parts.push(self.parts[i].clone());
            assert(texts(parts@) =~= texts(before).push(self.parts@[i as int]@));
        }
        assert forall|i: int| 0 <= i < texts(parts@).len() implies is_part(
            #[trigger] texts(parts@)[i],
        ) by {
            assert(self@[i] == texts(parts@)[i]);
        }
        RelPath { parts }
    }
}

/// The name of the temporary file with the identifier `id` that stands in for a file while it is
/// written.
pub open spec fn temp_name(name: Seq<char>, id: Seq<char>) -> Seq<char> {
    "."@ + name + ".mcp-"@ + id + ".tmp"@
}

/// The temporary file that stands in for the file `path`: it is in the same directory.
pub open spec fn temp_path(path: Seq<Seq<char>>, id: Seq<char>) -> Seq<Seq<char>> {
    path.drop_last().push(temp_name(path.last(), id))
}

/// The temporary file is an item of the directory that the file is in, and another one.
pub proof fn lemma_temp_path(path: Seq<Seq<char>>, id: Seq<char>)
    requires
        confined(path),
        path.len() > 0,
        !id.contains('/'),
        !id.contains('\0'),
    ensures
        confined(temp_path(path, id)),
        temp_path(path, id).len() == path.len(),
        temp_path(path, id) != path,
{
    reveal_strlit(".");
    reveal_strlit("..");
    reveal_strlit(".mcp-");
    reveal_strlit(".tmp");
    let name = path.last();
    let temp = temp_name(name, id);
    assert(is_part(path[path.len() - 1]));
    assert(temp.len() == name.len() + id.len() + 10);
    assert forall|k: int| 0 <= k < temp.len() implies temp[k] != '/' && temp[k] != '\0' by {
        if 1 <= k < 1 + name.len() {
            assert(name.contains(name[k - 1]));
        } else if name.len() + 6 <= k < name.len() + 6 + id.len() {
            assert(id.contains(id[k - name.len() - 6]));
        }
    }
    assert(is_part(temp));
    let all = temp_path(path, id);
    assert forall|i: int| 0 <= i < all.len() implies is_part(#[trigger] all[i]) by {
        if i < path.len() - 1 {
            assert(all[i] == path[i]);
        }
    }
    assert(all.last() != path.last());
}

impl RelPath {
    /// The temporary file with the identifier `id` that stands in for this file.
    pub fn temp(&self, id: &str) -> (path: RelPath)
        requires
            self@.len() > 0,
            !id@.contains('/'),
            !id@.contains('\0'),
        ensures
            path@ == temp_path(self@, id@),
            path@.drop_last() == self@.drop_last(),
            path@.last() == "."@ + self@.last() + ".mcp-"@ + id@ + ".tmp"@,
    {
        proof {
            use_type_invariant(self);
            lemma_temp_path(self@, id@);
        }
        let last: usize = self.parts.len() - 1;
        let mut name: String = String::from_str(".");
        name.append(self.parts[last].as_str());
        name.append(".mcp-");
        name.append(id);
        name.append(".tmp");
        let RelPath { mut parts } = self.first(last);
        let ghost before = parts@;
        parts.push(name);
        assert(texts(parts@) =~= texts(before).push(name@));
        assert(texts(parts@) =~= temp_path(self@, id@));
        assert(texts(parts@).drop_last() =~= self@.drop_last());
        RelPath { parts }
    }
}

impl FilesystemServer {
    /// The path that `raw`, read the Unix way, stands for, or a message that says why it is
    /// refused: it holds a NUL, is absolute, has a `..`, or, unless `allow_root`, names no item
    /// below the exposed directory.
    pub fn clean_path(raw: &str, allow_root: bool) -> (r: Result<RelPath, String>)
        ensures
            match cleaned(raw@, allow_root) {
                Ok(parts) => {
                    &&& r matches Ok(path)
                    &&& path@ == parts
                    &&& confined(parts)
                    &&& parts.len() <= usize::MAX
                },
                Err(message) => r matches Err(m) && m@ == message,
            },
    {
        let mut segmenter = Segmenter::new();
        let mut absolute: bool = false;
        let mut at_start: bool = true;
        let ghost mut done: Seq<char> = seq![];
        for c in it: raw.chars()
            invariant
                it.seq() == raw@,
                done == raw@.take(it.index() as int),
                segmenter.has_read(done),
                at_start == (done.len() == 0),
                absolute == (done.len() > 0 && done[0] == '/'),
        {
            if at_start && c == '/' {
                absolute = true;
            }
            at_start = false;
            segmenter = segmenter.read(c, Ghost(done));
            proof {
                assert(done.push(c) =~= raw@.take(it.index() as int + 1));
                done = done.push(c);
            }
        }
        assert(done =~= raw@);
        let Segmenter { nul, parent, parts, current: _ } = segmenter.end_segment(Ghost(done));
        if nul {
            Err(String::from_str("path contains a NUL byte"))
        } else if absolute {
            Err(String::from_str("absolute paths are not allowed"))
        } else if parent {
            Err(String::from_str("parent traversal (`..`) is not allowed"))
        } else if parts.len() == 0 && !allow_root {
            Err(String::from_str("path must name an item below the configured root"))
        } else {
            proof {
                law_clean_path_is_confined(raw@, allow_root);
            }
            Ok(RelPath { parts })
        }
    }
}

} // verus!
