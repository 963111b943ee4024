//! Paths as text, their parts set apart by `/`.
use crate::error::Error;
use crate::text;
use vstd::prelude::*;
use vstd::string::StringExecFns;

verus! {

/// What stands between the slashes of a path. Where there is none, this is the
/// path alone.
pub open spec fn segments(path: Seq<char>) -> Seq<Seq<char>>
    decreases path.len(),
{
    if path.len() == 0 {
        seq![Seq::empty()]
    } else {
        let before = segments(path.drop_last());
        if path.last() == '/' {
            before.push(Seq::empty())
        } else {
            before.drop_last().push(before.last().push(path.last()))
        }
    }
}

/// A segment that names something: it is not empty and not `.`, which stands
/// for the directory itself.
pub open spec fn names_something(segment: Seq<char>) -> bool {
    segment.len() > 0 && segment != "."@
}

/// The segments of a path that name something, in order.
pub open spec fn names(path: Seq<char>) -> Seq<Seq<char>> {
    naming(segments(path))
}

/// The segments that name something, in order.
pub open spec fn naming(segs: Seq<Seq<char>>) -> Seq<Seq<char>>
    decreases segs.len(),
{
    if segs.len() == 0 {
        Seq::empty()
    } else {
        let before = naming(segs.drop_last());
        if names_something(segs.last()) {
            before.push(segs.last())
        } else {
            before
        }
    }
}

/// The texts in a list.
pub open spec fn texts(list: Seq<String>) -> Seq<Seq<char>> {
    Seq::new(list.len(), |i: int| list[i]@)
}

proof fn lemma_segment_open(path: Seq<char>, start: int)
    requires
        0 <= start <= path.len(),
        start == 0 || path[start - 1] == '/',
        forall|k: int| start <= k < path.len() ==> path[k] != '/',
    ensures
        segments(path).len() > 0,
        segments(path).last() == path.skip(start),
        segments(path).drop_last() == (if start == 0 {
            Seq::<Seq<char>>::empty()
        } else {
            segments(path.take(start - 1))
        }),
    decreases path.len(),
{
    if path.len() == start {
        assert(path.skip(start) =~= Seq::<char>::empty());
        if start > 0 {
            assert(path.drop_last() =~= path.take(start - 1));
            assert(segments(path).drop_last() =~= segments(path.take(start - 1)));
        } else {
            assert(segments(path).drop_last() =~= Seq::<Seq<char>>::empty());
        }
    } else {
        let shorter = path.drop_last();
        lemma_segment_open(shorter, start);
        assert(shorter.skip(start).push(path.last()) =~= path.skip(start));
        if start > 0 {
            assert(shorter.take(start - 1) =~= path.take(start - 1));
        }
        assert(segments(path).drop_last() =~= segments(shorter).drop_last());
    }
}

/// Adds a segment, if it names something.
fn add_segment(out: &mut Vec<String>, segment: &str)
    ensures
        texts(final(out)@) == (if names_something(segment@) {
            texts(old(out)@).push(segment@)
        } else {
            texts(old(out)@)
        }),
{
    let ghost before = texts(out@);
    if segment.unicode_len() > 0 && !text::same_text(segment, ".") {
        out.push(segment.to_owned());
        assert(texts(out@) =~= before.push(segment@));
    }
}

/// The segments of a path that name something, in order.
fn names_of(path: &str) -> (r: Vec<String>)
    ensures
        texts(r@) == names(path@),
{
    let chars = text::chars_of(path);
    let n: usize = chars.len();
    let mut out: Vec<String> = Vec::new();
    let mut start: usize = 0;
    let mut i: usize = 0;
    assert(texts(out@) =~= naming(Seq::<Seq<char>>::empty()));
    while i < n
        invariant
            start <= i <= n == path@.len(),
            chars@ == path@,
            start == 0 || path@[start - 1] == '/',
            forall|k: int| start <= k < i ==> path@[k] != '/',
            texts(out@) == naming(
                if start == 0 {
                    Seq::<Seq<char>>::empty()
                } else {
                    segments(path@.take(start - 1))
                },
            ),
        decreases n - i,
    {
        if chars[i] == '/' {
            let segment: &str = path.substring_char(start, i);
            proof {
                lemma_next_segment(path@, start as int, i as int);
            }
            add_segment(&mut out, segment);
            start = i + 1;
        }
        i = i + 1;
    }
    let segment: &str = path.substring_char(start, n);
    proof {
        lemma_next_segment(path@, start as int, n as int);
        assert(path@.take(n as int) =~= path@);
    }
    add_segment(&mut out, segment);
    out
}

proof fn lemma_next_segment(path: Seq<char>, start: int, end: int)
    requires
        0 <= start <= end <= path.len(),
        start == 0 || path[start - 1] == '/',
        forall|k: int| start <= k < end ==> path[k] != '/',
    ensures
        ({
            let segment = path.subrange(start, end);
            let before = naming(
                if start == 0 {
                    Seq::<Seq<char>>::empty()
                } else {
                    segments(path.take(start - 1))
                },
            );
            naming(segments(path.take(end))) == (if names_something(segment) {
                before.push(segment)
            } else {
                before
            })
        }),
{
    let part = path.take(end);
    assert(part.skip(start) =~= path.subrange(start, end));
    lemma_segment_open(part, start);
    if start > 0 {
        assert(part.take(start - 1) =~= path.take(start - 1));
    }
}

/// The first NUL in a text from `i` on, or its length.
pub open spec fn nul_at(s: Seq<char>, i: int) -> int
    decreases s.len() - i,
{
    if i < 0 || i >= s.len() || s[i] == '\0' {
        i
    } else {
        nul_at(s, i + 1)
    }
}

/// A text up to its first NUL.
pub open spec fn before_nul(s: Seq<char>) -> Seq<char> {
    s.take(nul_at(s, 0))
}

/// A text with slashes for backslashes.
pub open spec fn slashed(s: Seq<char>) -> Seq<char> {
    s.map_values(
        |c: char|
            if c == '\\' {
                '/'
            } else {
                c
            },
    )
}

/// The parts without `..`, in order.
pub open spec fn without_parents(parts: Seq<Seq<char>>) -> Seq<Seq<char>>
    decreases parts.len(),
{
    if parts.len() == 0 {
        Seq::empty()
    } else {
        let before = without_parents(parts.drop_last());
        if parts.last() == ".."@ {
            before
        } else {
            before.push(parts.last())
        }
    }
}

/// The path that a name in a zip archive stands for: up to the first NUL, with
/// backslashes as slashes, without a root and without parts of special meaning.
pub open spec fn mangled(name: Seq<char>) -> Seq<char> {
    with_parts(Seq::empty(), without_parents(names(slashed(before_nul(name)))))
}

fn find_nul(chars: &Vec<char>) -> (r: usize)
    ensures
        r == nul_at(chars@, 0),
        r <= chars@.len(),
        forall|k: int| 0 <= k < r ==> chars@[k] != '\0',
{
    let mut i: usize = 0;
    while i < chars.len() && chars[i] != '\0'
        invariant
            i <= chars@.len(),
            nul_at(chars@, i as int) == nul_at(chars@, 0),
            forall|k: int| 0 <= k < i ==> chars@[k] != '\0',
        decreases chars@.len() - i,
    {
        i = i + 1;
    }
    i
}

/// The parts of a name in a zip archive that name something, in order.
fn mangled_names(name: &str) -> (r: Vec<String>)
    ensures
        texts(r@) == names(slashed(before_nul(name@))),
{
    let chars = text::chars_of(name);
    let n: usize = find_nul(&chars);
    let ghost path = slashed(before_nul(name@));
    let mut out: Vec<String> = Vec::new();
    let mut start: usize = 0;
    let mut i: usize = 0;
    assert(texts(out@) =~= naming(Seq::<Seq<char>>::empty()));
    while i < n
        invariant
            start <= i <= n == path.len(),
            n <= name@.len(),
            chars@ == name@,
            path == slashed(name@.take(n as int)),
            start == 0 || path[start - 1] == '/',
            forall|k: int| start <= k < i ==> path[k] != '/',
            texts(out@) == naming(
                if start == 0 {
                    Seq::<Seq<char>>::empty()
                } else {
                    segments(path.take(start - 1))
                },
            ),
        decreases n - i,
    {
        if chars[i] == '/' || chars[i] == '\\' {
            let segment: &str = name.substring_char(start, i);
            proof {
                lemma_same_segment(name@, n as int, start as int, i as int);
                lemma_next_segment(path, start as int, i as int);
            }
            add_segment(&mut out, segment);
            start = i + 1;
        }
        i = i + 1;
    }
    let segment: &str = name.substring_char(start, n);
    proof {
        lemma_same_segment(name@, n as int, start as int, n as int);
        lemma_next_segment(path, start as int, n as int);
        assert(path.take(n as int) =~= path);
    }
    add_segment(&mut out, segment);
    out
}

proof fn lemma_same_segment(name: Seq<char>, n: int, start: int, end: int)
    requires
        0 <= start <= end <= n <= name.len(),
        forall|k: int| start <= k < end ==> slashed(name.take(n))[k] != '/',
    ensures
        slashed(name.take(n)).subrange(start, end) == name.subrange(start, end),
{
    let path = slashed(name.take(n));
    assert forall|k: int| start <= k < end implies path[k] == name[k] by {
        assert(path[k] != '/');
    }
    assert(path.subrange(start, end) =~= name.subrange(start, end));
}

/// The path that a name in a zip archive stands for.
pub fn mangled_name(name: &str) -> (r: String)
    ensures
        r@ == mangled(name@),
{
    let parts = mangled_names(name);
    let mut out: String = String::new();
    let mut i: usize = 0;
    let ghost all = texts(parts@);
    assert(all.take(0) =~= Seq::<Seq<char>>::empty());
    while i < parts.len()
        invariant
            i <= parts@.len(),
            all == texts(parts@),
            out@ == with_parts(Seq::empty(), without_parents(all.take(i as int))),
        decreases parts@.len() - i,
    {
        proof {
            let next = all.take(i + 1);
            assert(next.drop_last() =~= all.take(i as int));
            assert(next.last() == parts@[i as int]@);
            let kept = without_parents(all.take(i as int));
            assert(kept.push(parts@[i as int]@).drop_last() =~= kept);
        }
        if !text::same_text(parts[i].as_str(), "..") {
            out = push_part(out, parts[i].as_str());
        }
        i = i + 1;
    }
    assert(all.take(parts@.len() as int) =~= all);
    out
}

/// The name of the file that a path leads to: the last part that names
/// something, unless it is `..`.
pub open spec fn file_name_spec(path: Seq<char>) -> Option<Seq<char>> {
    let parts = names(path);
    if parts.len() == 0 || parts.last() == ".."@ {
        None
    } else {
        Some(parts.last())
    }
}

/// The name of the file that a path leads to.
pub fn file_name(path: &str) -> (r: Option<String>)
    ensures
        match file_name_spec(path@) {
            Some(name) => r matches Some(s) && s@ == name,
            None => r is None,
        },
{
    let parts = names_of(path);
    let n: usize = parts.len();
    if n == 0 {
        assert(texts(parts@).len() == 0);
        return None;
    }
    assert(texts(parts@)[n - 1] == parts@[n - 1]@);
    if text::same_text(parts[n - 1].as_str(), "..") {
        None
    } else {
        Some(parts[n - 1].clone())
    }
}

/// A path that stays below where it starts: it does not begin at the root, and
/// no part of it is `..`.
pub open spec fn stays_below(entry: Seq<char>) -> bool {
    &&& !(entry.len() > 0 && entry[0] == '/')
    &&& forall|i: int| 0 <= i < segments(entry).len() ==> #[trigger] segments(entry)[i] != ".."@
}

/// A path with one more part behind it.
pub open spec fn with_part(path: Seq<char>, part: Seq<char>) -> Seq<char> {
    if path.len() == 0 || path.last() == '/' {
        path + part
    } else {
        path + "/"@ + part
    }
}

/// A path with parts behind it.
pub open spec fn with_parts(path: Seq<char>, parts: Seq<Seq<char>>) -> Seq<char>
    decreases parts.len(),
{
    if parts.len() == 0 {
        path
    } else {
        with_part(with_parts(path, parts.drop_last()), parts.last())
    }
}

fn push_part(path: String, part: &str) -> (r: String)
    ensures
        r@ == with_part(path@, part@),
{
    let len: usize = path.as_str().unicode_len();
    if len == 0 || path.as_str().get_char(len - 1) == '/' {
        path.concat(part)
    } else {
        path.concat("/").concat(part)
    }
}

/// `dest` with the path of an entry behind it. A path that begins at the root
/// or has `..` among its parts is refused, so that nothing is written outside
/// `dest`.
pub fn safe_join(dest: &str, entry: &str) -> (r: Result<String, Error>)
    ensures
        if stays_below(entry@) {
            r matches Ok(p) && p@ == with_parts(dest@, names(entry@))
        } else {
            r matches Err(Error::InvalidArchive(m)) && m@ == "unsafe entry path: "@ + entry@
        },
{
    let parts = names_of(entry);
    let ghost segs = segments(entry@);
    let rooted: bool = entry.unicode_len() > 0 && entry.get_char(0) == '/';
    if rooted {
        return Err(Error::InvalidArchive("unsafe entry path: ".to_owned().concat(entry)));
    }
    let mut out: String = dest.to_owned();
    let mut i: usize = 0;
    proof {
        lemma_naming(segs);
        assert(texts(parts@).take(0) =~= Seq::<Seq<char>>::empty());
    }
    while i < parts.len()
        invariant
            i <= parts@.len(),
            !rooted,
            rooted == (entry@.len() > 0 && entry@[0] == '/'),
            segs == segments(entry@),
            texts(parts@) == naming(segs),
            naming(segs).contains(".."@) == segs.contains(".."@),
            forall|k: int| 0 <= k < i ==> #[trigger] texts(parts@)[k] != ".."@,
            out@ == with_parts(dest@, texts(parts@).take(i as int)),
        decreases parts@.len() - i,
    {
        assert(texts(parts@)[i as int] == parts@[i as int]@);
        if text::same_text(parts[i].as_str(), "..") {
            proof {
                assert(naming(segs).contains(".."@));
                let k = choose|k: int| 0 <= k < segs.len() && segs[k] == ".."@;
                assert(segs[k] == ".."@);
                assert(!stays_below(entry@));
            }
            return Err(Error::InvalidArchive("unsafe entry path: ".to_owned().concat(entry)));
        }
        proof {
            let next = texts(parts@).take(i + 1);
            assert(next.drop_last() =~= texts(parts@).take(i as int));
            assert(next.last() == parts@[i as int]@);
        }
        out = push_part(out, parts[i].as_str());
        i = i + 1;
    }
    proof {
        assert(texts(parts@).take(parts@.len() as int) =~= texts(parts@));
        assert forall|k: int| 0 <= k < segs.len() implies #[trigger] segs[k] != ".."@ by {
            if segs[k] == ".."@ {
                assert(segs.contains(".."@));
                let j = choose|j: int| 0 <= j < naming(segs).len() && naming(segs)[j] == ".."@;
                assert(texts(parts@)[j] == ".."@);
            }
        }
        assert(stays_below(entry@));
    }
    Ok(out)
}

/// What names something is among the segments, and `..` is never left out.
proof fn lemma_naming(segs: Seq<Seq<char>>)
    ensures
        naming(segs).contains(".."@) == segs.contains(".."@),
        forall|k: int|
            0 <= k < naming(segs).len() ==> segs.contains(#[trigger] naming(segs)[k])
                && names_something(naming(segs)[k]),
    decreases segs.len(),
{
    reveal_strlit("..");
    reveal_strlit(".");
    if segs.len() > 0 {
        let shorter = segs.drop_last();
        lemma_naming(shorter);
        let all = naming(segs);
        let before = naming(shorter);
        assert(".."@.len() == 2);
        assert("."@.len() == 1);
        assert(names_something(".."@));
        assert forall|k: int| 0 <= k < all.len() implies segs.contains(#[trigger] all[k])
            && names_something(all[k]) by {
            if k < before.len() {
                assert(all[k] == before[k]);
                let j = choose|j: int| 0 <= j < shorter.len() && shorter[j] == before[k];
                assert(segs[j] == all[k]);
            } else {
                assert(segs[segs.len() - 1] == all[k]);
            }
        }
        if segs.contains(".."@) {
            let k = choose|k: int| 0 <= k < segs.len() && segs[k] == ".."@;
            if k < shorter.len() {
                assert(shorter[k] == ".."@);
                let j = choose|j: int| 0 <= j < before.len() && before[j] == ".."@;
                assert(all[j] == ".."@);
            } else {
                assert(all[all.len() - 1] == ".."@);
            }
        }
        if all.contains(".."@) {
            let k = choose|k: int| 0 <= k < all.len() && all[k] == ".."@;
            assert(segs.contains(all[k]));
        }
    } else {
        assert(!segs.contains(".."@));
        assert(!naming(segs).contains(".."@));
    }
}

/// No slash stands in a segment.
proof fn lemma_segments_without_slash(path: Seq<char>)
    ensures
        segments(path).len() > 0,
        forall|i: int|
            0 <= i < segments(path).len() ==> !(#[trigger] segments(path)[i]).contains('/'),
    decreases path.len(),
{
    if path.len() == 0 {
        assert(!Seq::<char>::empty().contains('/'));
    } else {
        let before = segments(path.drop_last());
        lemma_segments_without_slash(path.drop_last());
        let all = segments(path);
        assert forall|i: int| 0 <= i < all.len() implies !(#[trigger] all[i]).contains('/') by {
            if i < all.len() - 1 {
                assert(all[i] == before[i]);
            } else if path.last() == '/' {
                assert(all[i] == Seq::<char>::empty());
            } else {
                let last = before[before.len() - 1];
                assert(all[i] == last.push(path.last()));
                assert forall|k: int| 0 <= k < all[i].len() implies all[i][k] != '/' by {
                    if k < last.len() {
                        assert(last[k] == all[i][k]);
                        assert(!last.contains('/'));
                    }
                }
            }
        }
    }
}

/// A part without slashes behind a path goes on with its last segment.
proof fn lemma_segments_extended(path: Seq<char>, part: Seq<char>)
    requires
        !part.contains('/'),
    ensures
        segments(path).len() > 0,
        segments(path + part) == segments(path).drop_last().push(segments(path).last() + part),
    decreases part.len(),
{
    lemma_segments_without_slash(path);
    if part.len() == 0 {
        assert(path + part =~= path);
        assert(segments(path).last() + part =~= segments(path).last());
        assert(segments(path).drop_last().push(segments(path).last()) =~= segments(path));
    } else {
        let shorter = part.drop_last();
        assert forall|k: int| 0 <= k < shorter.len() implies shorter[k] != '/' by {
            assert(part[k] == shorter[k]);
        }
        lemma_segments_extended(path, shorter);
        assert((path + part).drop_last() =~= path + shorter);
        assert(part[part.len() - 1] != '/');
        assert((segments(path).last() + shorter).push(part.last()) =~= segments(path).last() + part);
        assert(segments(path + part) =~= segments(path).drop_last().push(
            segments(path).last() + part,
        ));
    }
}

/// What `with_parts` puts behind `dest`.
proof fn lemma_parts_stay_below(dest: Seq<char>, parts: Seq<Seq<char>>) -> (rest: Seq<char>)
    requires
        forall|i: int|
            0 <= i < parts.len() ==> (#[trigger] parts[i]).len() > 0 && !parts[i].contains('/')
                && parts[i] != ".."@,
    ensures
        with_parts(dest, parts) == dest + rest,
        rest.len() == 0 || rest.last() != '/',
        dest.len() == 0 ==> (rest.len() == 0 || rest[0] != '/'),
        forall|i: int| 0 <= i < segments(rest).len() ==> #[trigger] segments(rest)[i] != ".."@,
    decreases parts.len(),
{
    reveal_strlit("/");
    reveal_strlit("..");
    if parts.len() == 0 {
        assert(dest + Seq::<char>::empty() =~= dest);
        assert(segments(Seq::<char>::empty())[0] == Seq::<char>::empty());
        Seq::empty()
    } else {
        let shorter = parts.drop_last();
        assert forall|i: int| 0 <= i < shorter.len() implies (#[trigger] shorter[i]).len() > 0
            && !shorter[i].contains('/') && shorter[i] != ".."@ by {
            assert(shorter[i] == parts[i]);
        }
        let rest = lemma_parts_stay_below(dest, shorter);
        let path = with_parts(dest, shorter);
        let part = parts[parts.len() - 1];
        assert(part.last() != '/') by {
            assert(part.contains(part[part.len() - 1]));
        }
        assert(part[0] != '/') by {
            assert(part.contains(part[0]));
        }
        let more = if path.len() == 0 || path.last() == '/' {
            rest
        } else {
            rest + "/"@
        };
        let longer = more + part;
        assert(with_part(path, part) =~= dest + longer);
        lemma_segments_extended(more, part);
        lemma_segments_without_slash(rest);
        if more != rest {
            assert((rest + "/"@).drop_last() =~= rest);
            assert(segments(more) == segments(rest).push(Seq::empty()));
            assert(segments(more).drop_last() =~= segments(rest));
        } else {
            assert(rest.len() == 0);
            assert(segments(rest).drop_last() =~= Seq::<Seq<char>>::empty());
            assert(segments(rest).last() =~= Seq::<char>::empty());
        }
        assert(Seq::<char>::empty() + part =~= part);
        assert(segments(longer).last() == part);
        assert forall|i: int| 0 <= i < segments(longer).len() implies #[trigger] segments(longer)[i]
            != ".."@ by {
            if i < segments(longer).len() - 1 {
                assert(segments(longer)[i] == segments(more).drop_last()[i]);
            }
        }
        longer
    }
}

/// A path that is not refused leads to `dest` or below it: what stands behind
/// `dest` has no `..` among its parts, and does not begin at the root.
pub proof fn law_joined_path_stays_below(dest: Seq<char>, entry: Seq<char>) -> (rest: Seq<char>)
    requires
        stays_below(entry),
    ensures
        with_parts(dest, names(entry)) == dest + rest,
        dest.len() == 0 ==> (rest.len() == 0 || rest[0] != '/'),
        forall|i: int| 0 <= i < segments(rest).len() ==> #[trigger] segments(rest)[i] != ".."@,
{
    let segs = segments(entry);
    let parts = names(entry);
    lemma_naming(segs);
    lemma_segments_without_slash(entry);
    assert forall|i: int| 0 <= i < parts.len() implies (#[trigger] parts[i]).len() > 0
        && !parts[i].contains('/') && parts[i] != ".."@ by {
        assert(segs.contains(parts[i]));
        let j = choose|j: int| 0 <= j < segs.len() && segs[j] == parts[i];
        assert(segs[j] == parts[i]);
    }
    lemma_parts_stay_below(dest, parts)
}

proof fn lemma_without_parents(parts: Seq<Seq<char>>)
    ensures
        forall|k: int|
            0 <= k < without_parents(parts).len() ==> parts.contains(
                #[trigger] without_parents(parts)[k],
            ) && without_parents(parts)[k] != ".."@,
    decreases parts.len(),
{
    if parts.len() > 0 {
        let shorter = parts.drop_last();
        let kept = without_parents(parts);
        lemma_without_parents(shorter);
        assert forall|k: int| 0 <= k < kept.len() implies parts.contains(#[trigger] kept[k])
            && kept[k] != ".."@ by {
            if k < without_parents(shorter).len() {
                let j = choose|j: int| 0 <= j < shorter.len() && shorter[j] == kept[k];
                assert(parts[j] == kept[k]);
            } else {
                assert(parts[parts.len() - 1] == kept[k]);
            }
        }
    }
}

/// The path that a name in a zip archive stands for never leads outside of where
/// the archive is unpacked: no such name is refused there.
pub proof fn law_mangled_names_stay_below(name: Seq<char>)
    ensures
        stays_below(mangled(name)),
{
    let path = slashed(before_nul(name));
    let all = names(path);
    let parts = without_parents(all);
    lemma_naming(segments(path));
    lemma_segments_without_slash(path);
    lemma_without_parents(all);
    assert forall|i: int| 0 <= i < parts.len() implies (#[trigger] parts[i]).len() > 0
        && !parts[i].contains('/') && parts[i] != ".."@ by {
        let k = choose|k: int| 0 <= k < all.len() && all[k] == parts[i];
        assert(names_something(all[k]));
        assert(segments(path).contains(all[k]));
        let j = choose|j: int| 0 <= j < segments(path).len() && segments(path)[j] == all[k];
        assert(!segments(path)[j].contains('/'));
    }
    let rest = lemma_parts_stay_below(Seq::empty(), parts);
    assert(Seq::<char>::empty() + rest =~= rest);
}

/// Parts with slashes between them.
pub open spec fn joined(parts: Seq<Seq<char>>) -> Seq<char>
    decreases parts.len(),
{
    if parts.len() == 0 {
        Seq::empty()
    } else if parts.len() == 1 {
        parts[0]
    } else {
        joined(parts.drop_last()).push('/') + parts.last()
    }
}

/// No part has a slash in it.
pub open spec fn without_slashes(parts: Seq<Seq<char>>) -> bool {
    forall|i: int, k: int|
        0 <= i < parts.len() && 0 <= k < parts[i].len() ==> #[trigger] parts[i][k] != '/'
}

proof fn lemma_without_slashes(parts: Seq<Seq<char>>, i: int)
    requires
        without_slashes(parts),
        0 <= i < parts.len(),
    ensures
        !parts[i].contains('/'),
        without_slashes(parts.drop_last()),
{
    assert forall|k: int| 0 <= k < parts[i].len() implies parts[i][k] != '/' by {}
    let shorter = parts.drop_last();
    assert forall|j: int, k: int|
        0 <= j < shorter.len() && 0 <= k < shorter[j].len() implies #[trigger] shorter[j][k]
        != '/' by {
        assert(shorter[j][k] == parts[j][k]);
    }
}

/// The segments of a path are what it is joined of: no other parts without
/// slashes have this path.
pub proof fn law_segments_are_what_a_path_is_joined_of(parts: Seq<Seq<char>>)
    requires
        parts.len() > 0,
        without_slashes(parts),
    ensures
        segments(joined(parts)) == parts,
    decreases parts.len(),
{
    let last = parts.last();
    lemma_without_slashes(parts, parts.len() - 1);
    if parts.len() == 1 {
        let nothing = Seq::<char>::empty();
        lemma_segments_extended(nothing, last);
        assert(nothing + last =~= joined(parts));
        assert(segments(nothing).last() + last =~= last);
        assert(segments(joined(parts)) =~= parts);
    } else {
        let before = parts.drop_last();
        law_segments_are_what_a_path_is_joined_of(before);
        let open = joined(before).push('/');
        assert(open.drop_last() =~= joined(before));
        assert(segments(open) == before.push(Seq::empty()));
        lemma_segments_extended(open, last);
        assert(segments(open).drop_last() =~= before);
        assert(Seq::<char>::empty() + last =~= last);
        assert(segments(joined(parts)) =~= parts);
    }
}

/// A path is joined of its segments.
pub proof fn law_a_path_is_joined_of_its_segments(path: Seq<char>)
    ensures
        segments(path).len() > 0,
        without_slashes(segments(path)),
        joined(segments(path)) == path,
    decreases path.len(),
{
    let segs = segments(path);
    lemma_segments_without_slash(path);
    assert forall|i: int, k: int| 0 <= i < segs.len() && 0 <= k < segs[i].len() implies #[trigger]
        segs[i][k] != '/' by {
        assert(!segs[i].contains('/'));
        assert(segs[i].contains(segs[i][k]));
    }
    if path.len() > 0 {
        let before = segments(path.drop_last());
        law_a_path_is_joined_of_its_segments(path.drop_last());
        if path.last() == '/' {
            assert(segs.drop_last() =~= before);
            assert(joined(segs) =~= path);
        } else {
            assert(segs.drop_last() =~= before.drop_last());
            if segs.len() == 1 {
                assert(joined(before) =~= before[0]);
                assert(joined(segs) =~= path);
            } else {
                let front = joined(before.drop_last()).push('/');
                assert(joined(before) == front + before.last());
                assert(front + before.last().push(path.last()) =~= (front + before.last()).push(
                    path.last(),
                ));
                assert(joined(segs) =~= path);
            }
        }
    }
}

proof fn lemma_naming_filters(segs: Seq<Seq<char>>)
    ensures
        naming(segs) == segs.filter(|s: Seq<char>| s.len() > 0 && s != "."@),
    decreases segs.len(),
{
    reveal(Seq::filter);
    if segs.len() > 0 {
        lemma_naming_filters(segs.drop_last());
    }
}

proof fn lemma_mangling_filters(segs: Seq<Seq<char>>)
    ensures
        without_parents(naming(segs)) == segs.filter(
            |s: Seq<char>| s.len() > 0 && s != "."@ && s != ".."@,
        ),
    decreases segs.len(),
{
    reveal(Seq::filter);
    if segs.len() > 0 {
        let before = naming(segs.drop_last());
        lemma_mangling_filters(segs.drop_last());
        if names_something(segs.last()) {
            assert(before.push(segs.last()).drop_last() =~= before);
        }
    }
}

/// Named parts behind a path are these parts, joined, with a slash in front
/// where there is none.
proof fn lemma_with_parts_joins(path: Seq<char>, parts: Seq<Seq<char>>)
    requires
        without_slashes(parts),
        forall|i: int| 0 <= i < parts.len() ==> (#[trigger] parts[i]).len() > 0,
    ensures
        with_parts(path, parts) == (if parts.len() == 0 {
            path
        } else if path.len() == 0 || path.last() == '/' {
            path + joined(parts)
        } else {
            path.push('/') + joined(parts)
        }),
        parts.len() > 0 ==> with_parts(path, parts).len() > 0 && with_parts(path, parts).last()
            != '/',
    decreases parts.len(),
{
    reveal_strlit("/");
    if parts.len() > 0 {
        let before = parts.drop_last();
        let last = parts.last();
        lemma_without_slashes(parts, parts.len() - 1);
        assert(last.contains(last[last.len() - 1]));
        lemma_with_parts_joins(path, before);
        let whole = with_parts(path, parts);
        if parts.len() == 1 {
            assert(whole =~= if path.len() == 0 || path.last() == '/' {
                path + last
            } else {
                path.push('/') + last
            });
        } else {
            assert(whole =~= with_parts(path, before).push('/') + last);
            assert(whole =~= if path.len() == 0 || path.last() == '/' {
                path + joined(parts)
            } else {
                path.push('/') + joined(parts)
            });
        }
        assert(whole.last() == last.last());
    }
}

proof fn lemma_filtered(segs: Seq<Seq<char>>, keep: spec_fn(Seq<char>) -> bool)
    requires
        without_slashes(segs),
        forall|s: Seq<char>| #[trigger] keep(s) ==> s.len() > 0,
    ensures
        without_slashes(segs.filter(keep)),
        forall|i: int|
            0 <= i < segs.filter(keep).len() ==> (#[trigger] segs.filter(keep)[i]).len() > 0
                && keep(segs.filter(keep)[i]),
    decreases segs.len(),
{
    reveal(Seq::filter);
    if segs.len() > 0 {
        let before = segs.drop_last();
        lemma_without_slashes(segs, segs.len() - 1);
        lemma_filtered(before, keep);
        let kept = segs.filter(keep);
        assert forall|i: int, k: int|
            0 <= i < kept.len() && 0 <= k < kept[i].len() implies #[trigger] kept[i][k] != '/' by {
            if i < before.filter(keep).len() {
                assert(kept[i][k] == before.filter(keep)[i][k]);
            } else {
                assert(kept[i][k] == segs[segs.len() - 1][k]);
            }
        }
    }
}

/// The path that a name in a zip archive stands for has exactly the parts of the
/// name, in order, but for those that name nothing: the empty ones, `.` and `..`.
/// So nothing that names something is lost, whatever it is called.
pub proof fn law_mangling_keeps_the_parts(parts: Seq<Seq<char>>)
    requires
        parts.len() > 0,
        without_slashes(parts),
        forall|i: int, k: int|
            0 <= i < parts.len() && 0 <= k < parts[i].len() ==> #[trigger] parts[i][k] != '\\'
                && parts[i][k] != '\0',
    ensures
        mangled(joined(parts)) == joined(
            parts.filter(|s: Seq<char>| s.len() > 0 && s != "."@ && s != ".."@),
        ),
{
    let name = joined(parts);
    let keep = |s: Seq<char>| s.len() > 0 && s != "."@ && s != ".."@;
    lemma_joined_chars(parts);
    lemma_nul_at(name, 0);
    assert(before_nul(name) =~= name);
    assert(slashed(name) =~= name);
    law_segments_are_what_a_path_is_joined_of(parts);
    lemma_mangling_filters(parts);
    lemma_filtered(parts, keep);
    lemma_with_parts_joins(Seq::empty(), parts.filter(keep));
    assert(Seq::<char>::empty() + joined(parts.filter(keep)) =~= joined(parts.filter(keep)));
}

proof fn lemma_joined_chars(parts: Seq<Seq<char>>)
    requires
        forall|i: int, k: int|
            0 <= i < parts.len() && 0 <= k < parts[i].len() ==> #[trigger] parts[i][k] != '\\'
                && parts[i][k] != '\0',
    ensures
        forall|k: int|
            0 <= k < joined(parts).len() ==> #[trigger] joined(parts)[k] != '\\'
                && joined(parts)[k] != '\0',
    decreases parts.len(),
{
    if parts.len() == 1 {
        assert forall|k: int| 0 <= k < parts[0].len() implies #[trigger] joined(parts)[k] != '\\'
            && joined(parts)[k] != '\0' by {
            assert(parts[0][k] == joined(parts)[k]);
        }
    } else if parts.len() > 1 {
        let before = parts.drop_last();
        assert forall|i: int, k: int|
            0 <= i < before.len() && 0 <= k < before[i].len() implies #[trigger] before[i][k]
            != '\\' && before[i][k] != '\0' by {
            assert(before[i][k] == parts[i][k]);
        }
        lemma_joined_chars(before);
        let n = joined(before).len();
        let last = parts.len() - 1;
        assert forall|k: int| 0 <= k < joined(parts).len() implies #[trigger] joined(parts)[k]
            != '\\' && joined(parts)[k] != '\0' by {
            if k < n {
                assert(joined(parts)[k] == joined(before)[k]);
            } else if k > n {
                assert(joined(parts)[k] == parts[last][k - n - 1]);
            }
        }
    }
}

proof fn lemma_nul_at(s: Seq<char>, i: int)
    requires
        0 <= i <= s.len(),
    ensures
        i <= nul_at(s, i) <= s.len(),
        forall|k: int| i <= k < nul_at(s, i) ==> #[trigger] s[k] != '\0',
        nul_at(s, i) < s.len() ==> s[nul_at(s, i)] == '\0',
    decreases s.len() - i,
{
    if i < s.len() && s[i] != '\0' {
        lemma_nul_at(s, i + 1);
    }
}

/// A name in a zip archive ends at its first NUL, and whether its parts are set
/// apart by slashes or by backslashes makes no difference.
pub proof fn law_nul_and_backslash(name: Seq<char>, more: Seq<char>, other: Seq<char>)
    requires
        name.len() == other.len(),
        forall|i: int|
            0 <= i < name.len() ==> name[i] == #[trigger] other[i] || ((name[i] == '/' || name[i]
                == '\\') && (other[i] == '/' || other[i] == '\\')),
    ensures
        mangled(name.push('\0') + more) == mangled(name),
        mangled(name) == mangled(other),
{
    let longer = name.push('\0') + more;
    lemma_nul_at(name, 0);
    lemma_nul_at(longer, 0);
    lemma_nul_at(other, 0);
    let n = nul_at(name, 0);
    assert(longer[name.len() as int] == '\0');
    assert forall|k: int| 0 <= k < name.len() implies longer[k] == #[trigger] name[k] by {}
    if n < name.len() {
        assert(longer[n] == name[n]);
    }
    let l = nul_at(longer, 0);
    assert(l <= name.len());
    if l < name.len() {
        assert(name[l] == longer[l]);
    }
    assert(l == n);
    assert(before_nul(longer) =~= before_nul(name));
    let o = nul_at(other, 0);
    if o < n {
        assert(name[o] != '\0');
        assert(other[o] == '\0');
    }
    if n < o {
        assert(other[n] != '\0');
        assert(name[n] == '\0');
    }
    assert(slashed(before_nul(name)) =~= slashed(before_nul(other)));
}

/// A name in a zip archive whose parts all name something, without backslashes
/// and NULs, is its own path.
pub proof fn law_plain_names_are_kept(name: Seq<char>)
    requires
        forall|i: int| 0 <= i < name.len() ==> #[trigger] name[i] != '\\' && name[i] != '\0',
        forall|i: int|
            0 <= i < segments(name).len() ==> (#[trigger] segments(name)[i]).len() > 0
                && segments(name)[i] != "."@ && segments(name)[i] != ".."@,
    ensures
        mangled(name) == name,
{
    let parts = segments(name);
    let keep = |s: Seq<char>| s.len() > 0 && s != "."@ && s != ".."@;
    law_a_path_is_joined_of_its_segments(name);
    lemma_nul_at(name, 0);
    assert(before_nul(name) =~= name);
    assert(slashed(name) =~= name);
    lemma_mangling_filters(parts);
    lemma_all_kept(parts, keep);
    lemma_with_parts_joins(Seq::empty(), parts);
    assert(Seq::<char>::empty() + name =~= name);
}

proof fn lemma_all_kept(parts: Seq<Seq<char>>, keep: spec_fn(Seq<char>) -> bool)
    requires
        forall|i: int| 0 <= i < parts.len() ==> keep(#[trigger] parts[i]),
    ensures
        parts.filter(keep) == parts,
    decreases parts.len(),
{
    reveal(Seq::filter);
    if parts.len() > 0 {
        lemma_all_kept(parts.drop_last(), keep);
        assert(parts.drop_last().push(parts.last()) =~= parts);
    }
}

/// An entry is refused exactly where its path begins at the root or has `..`
/// among its parts. Else it is put below `dest` under exactly its parts, in order,
/// but for those that name nothing: the empty ones and `.`.
pub proof fn law_joining_keeps_the_parts(
    dest: &str,
    entry: &str,
    parts: Seq<Seq<char>>,
    r: Result<String, Error>,
)
    requires
        call_ensures(safe_join, (dest, entry), r),
        parts.len() > 0,
        without_slashes(parts),
        entry@ == joined(parts),
    ensures
        r is Err <==> (parts.len() > 1 && parts[0].len() == 0) || parts.contains(".."@),
        r matches Ok(p) ==> ({
            let named = parts.filter(|s: Seq<char>| s.len() > 0 && s != "."@);
            p@ == (if named.len() == 0 {
                dest@
            } else if dest@.len() == 0 || dest@.last() == '/' {
                dest@ + joined(named)
            } else {
                dest@.push('/') + joined(named)
            })
        }),
{
    let keep = |s: Seq<char>| s.len() > 0 && s != "."@;
    law_segments_are_what_a_path_is_joined_of(parts);
    lemma_naming_filters(parts);
    lemma_filtered(parts, keep);
    lemma_with_parts_joins(dest@, parts.filter(keep));
    lemma_first_char(parts);
    if parts.contains(".."@) {
        let k = choose|k: int| 0 <= k < parts.len() && parts[k] == ".."@;
        assert(segments(entry@)[k] == ".."@);
    } else {
        assert forall|i: int| 0 <= i < segments(entry@).len() implies #[trigger] segments(entry@)[i]
            != ".."@ by {
            assert(parts.contains(parts[i]));
        }
    }
}

proof fn lemma_first_char(parts: Seq<Seq<char>>)
    requires
        parts.len() > 0,
        without_slashes(parts),
    ensures
        (joined(parts).len() > 0 && joined(parts)[0] == '/') <==> (parts.len() > 1
            && parts[0].len() == 0),
    decreases parts.len(),
{
    lemma_without_slashes(parts, 0);
    if parts.len() == 1 {
        if parts[0].len() > 0 {
            assert(parts[0][0] != '/');
        }
    } else {
        lemma_first_char(parts.drop_last());
        if parts.len() == 2 {
            assert(joined(parts.drop_last()) == parts[0]);
            if parts[0].len() > 0 {
                assert(parts[0][0] != '/');
            }
        } else {
            let before = joined(parts.drop_last());
            assert(before.len() > 0);
            assert(joined(parts)[0] == before[0]);
        }
    }
}

/// The file that a path leads to has the name of its last part that names
/// something; there is none where that is `..`, or no part names anything.
pub proof fn law_file_name_is_the_last_part(
    path: &str,
    parts: Seq<Seq<char>>,
    r: Option<String>,
)
    requires
        call_ensures(file_name, (path,), r),
        parts.len() > 0,
        without_slashes(parts),
        path@ == joined(parts),
    ensures
        ({
            let named = parts.filter(|s: Seq<char>| s.len() > 0 && s != "."@);
            if named.len() == 0 || named.last() == ".."@ {
                r is None
            } else {
                r matches Some(name) && name@ == named.last()
            }
        }),
{
    law_segments_are_what_a_path_is_joined_of(parts);
    lemma_naming_filters(parts);
}

/// The name of the file in terms of the parts of the path.
pub proof fn lemma_file_name(parts: Seq<Seq<char>>)
    requires
        parts.len() > 0,
        without_slashes(parts),
    ensures
        ({
            let named = parts.filter(|s: Seq<char>| s.len() > 0 && s != "."@);
            file_name_spec(joined(parts)) == (if named.len() == 0 || named.last() == ".."@ {
                None
            } else {
                Some(named.last())
            })
        }),
{
    law_segments_are_what_a_path_is_joined_of(parts);
    lemma_naming_filters(parts);
}

} // verus!
