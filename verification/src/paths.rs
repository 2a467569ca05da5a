//! File names in paths whose parts are divided by `/`.
use crate::text::{chars_of, string_of, viewed_option};
use vstd::prelude::*;
use vstd::string::*;

verus! {

/// How much of the start of a path is kept whatever follows: the root, or a
/// leading dot that stands for the current directory.
pub open spec fn anchor(p: Seq<char>) -> int {
    if p.len() > 0 && (p[0] == '/' || (p[0] == '.' && (p.len() == 1 || p[1] == '/'))) {
        1
    } else {
        0
    }
}

/// The last part of the path is empty, or a dot.
pub open spec fn ends_idle(p: Seq<char>) -> bool {
    p.len() > anchor(p) && (p.last() == '/' || (p.last() == '.' && (p.len() == 1 || p[p.len() - 2]
        == '/')))
}

/// The path without trailing parts that name nothing: slashes, and dots that
/// stand for the same directory.
pub open spec fn settled(p: Seq<char>) -> Seq<char>
    decreases p.len(),
{
    if ends_idle(p) {
        settled(p.drop_last())
    } else {
        p
    }
}

/// One past the last `c` in `p`; zero when there is none.
pub open spec fn after_last(p: Seq<char>, c: char) -> int
    decreases p.len(),
{
    if p.len() == 0 || p.last() == c {
        p.len() as int
    } else {
        after_last(p.drop_last(), c)
    }
}

/// The last part of a path, if it names something below a directory.
pub open spec fn file_name(p: Seq<char>) -> Option<Seq<char>> {
    let t = settled(p);
    let name = t.skip(after_last(t, '/'));
    if t.len() <= anchor(t) || name == seq!['.', '.'] {
        None
    } else {
        Some(name)
    }
}

/// The path up to its last part.
pub open spec fn parent(p: Seq<char>) -> Seq<char> {
    let t = settled(p);
    settled(t.take(after_last(t, '/')))
}

/// The name up to its last dot, unless that dot comes first.
pub open spec fn stem(name: Seq<char>) -> Seq<char> {
    if after_last(name, '.') > 1 {
        name.take(after_last(name, '.') - 1)
    } else {
        name
    }
}

/// What follows the last dot of the name, unless that dot comes first.
pub open spec fn extension(name: Seq<char>) -> Option<Seq<char>> {
    if after_last(name, '.') > 1 {
        Some(name.skip(after_last(name, '.')))
    } else {
        None
    }
}

/// A name below a directory.
pub open spec fn below(dir: Seq<char>, name: Seq<char>) -> Seq<char> {
    if dir.len() > 0 && dir.last() != '/' {
        dir.push('/') + name
    } else {
        dir + name
    }
}

/// The path with another last part.
pub open spec fn with_file_name(p: Seq<char>, name: Seq<char>) -> Seq<char> {
    below(
        if file_name(p) is Some {
            parent(p)
        } else {
            p
        },
        name,
    )
}

/// The path of the crop file that goes with a stack.
pub open spec fn sidecar(stack: Seq<char>) -> Seq<char> {
    let base = match file_name(stack) {
        Some(name) => stem(name),
        None => "cropped_stack"@,
    };
    with_file_name(stack, base + "_crop.json"@)
}

/// What a path is called.
pub open spec fn label(p: Seq<char>) -> Seq<char> {
    match file_name(p) {
        Some(name) => name,
        None => p,
    }
}

/// The end of the settled part of the path that ends at `end`.
fn settle(v: &Vec<char>, end: usize) -> (r: usize)
    requires
        end <= v@.len(),
    ensures
        r <= end,
        v@.take(r as int) == settled(v@.take(end as int)),
{
    let mut r: usize = end;
    loop
        invariant
            r <= end <= v@.len(),
            settled(v@.take(r as int)) == settled(v@.take(end as int)),
        decreases r,
    {
        let ghost p = v@.take(r as int);
        let kept: usize = if r > 0 && (v[0] == '/' || (v[0] == '.' && (r == 1 || v[1] == '/'))) {
            1
        } else {
            0
        };
        assert(kept == anchor(p));
        if r > kept && (v[r - 1] == '/' || (v[r - 1] == '.' && (r == 1 || v[r - 2] == '/'))) {
            proof {
                assert(p.drop_last() =~= v@.take(r - 1));
            }
            r = r - 1;
        } else {
            return r;
        }
    }
}

/// One past the last `c` before `end`.
fn find_last(v: &Vec<char>, from: usize, end: usize, c: char) -> (r: usize)
    requires
        from <= end <= v@.len(),
    ensures
        r <= end - from,
        r == after_last(v@.subrange(from as int, end as int), c),
{
    let ghost p = v@.subrange(from as int, end as int);
    let mut r: usize = end;
    while r > from && v[r - 1] != c
        invariant
            from <= r <= end <= v@.len(),
            p == v@.subrange(from as int, end as int),
            after_last(v@.subrange(from as int, r as int), c) == after_last(p, c),
        decreases r,
    {
        proof {
            assert(v@.subrange(from as int, r as int).drop_last() =~= v@.subrange(
                from as int,
                r - 1,
            ));
        }
        r = r - 1;
    }
    r - from
}

/// Where the last part of a path starts and ends, if it names something.
fn name_range(v: &Vec<char>) -> (r: Option<(usize, usize)>)
    ensures
        match r {
            Some((from, to)) => {
                &&& from <= to <= v@.len()
                &&& file_name(v@) == Some(v@.subrange(from as int, to as int))
                &&& parent(v@) == settled(v@.take(from as int))
            },
            None => file_name(v@) is None,
        },
{
    let end: usize = settle(v, v.len());
    let ghost t = v@.take(end as int);
    proof {
        assert(v@.take(v@.len() as int) =~= v@);
        assert(t =~= v@.subrange(0, end as int));
    }
    let kept: usize = if end > 0 && (v[0] == '/' || (v[0] == '.' && (end == 1 || v[1] == '/'))) {
        1
    } else {
        0
    };
    let from: usize = find_last(v, 0, end, '/');
    proof {
        assert(t.skip(from as int) =~= v@.subrange(from as int, end as int));
        assert(t.take(from as int) =~= v@.take(from as int));
    }
    if end <= kept {
        return None;
    }
    if end - from == 2 && v[from] == '.' && v[from + 1] == '.' {
        proof {
            assert(t.skip(from as int) =~= seq!['.', '.']);
        }
        return None;
    }
    proof {
        let name = t.skip(from as int);
        if name == seq!['.', '.'] {
            assert(name.len() == 2);
            assert(name[0] == v@[from as int] && name[1] == v@[from + 1]);
        }
    }
    Some((from, end))
}

/// The last part of a path.
pub fn find_file_name(p: &str) -> (r: Option<String>)
    ensures
        viewed_option(r) == file_name(p@),
{
    let v: Vec<char> = chars_of(p);
    match name_range(&v) {
        Some((from, to)) => Some(string_of(&v, from, to)),
        None => None,
    }
}

/// The extension of the last part of a path.
pub fn find_extension(p: &str) -> (r: Option<String>)
    ensures
        viewed_option(r) == (match file_name(p@) {
            Some(name) => extension(name),
            None => None,
        }),
{
    let v: Vec<char> = chars_of(p);
    match name_range(&v) {
        Some((from, to)) => {
            let dot: usize = find_last(&v, from, to, '.');
            let ghost name = v@.subrange(from as int, to as int);
            if dot > 1 {
                proof {
                    assert(name.skip(dot as int) =~= v@.subrange(from + dot, to as int));
                }
                Some(string_of(&v, from + dot, to))
            } else {
                None
            }
        },
        None => None,
    }
}

/// The `<stem>_crop.json` sidecar written next to a cropped stack, recording
/// the crop region that was applied.
pub fn stack_sidecar_json(stack: &str) -> (r: String)
    ensures
        r@ == sidecar(stack@),
{
    let v: Vec<char> = chars_of(stack);
    let (dir_end, base): (usize, String) = match name_range(&v) {
        Some((from, to)) => {
            let dot: usize = find_last(&v, from, to, '.');
            let ghost name = v@.subrange(from as int, to as int);
            let stem_end: usize = if dot > 1 {
                proof {
                    assert(name.take(dot - 1) =~= v@.subrange(from as int, from + dot - 1));
                }
                from + dot - 1
            } else {
                to
            };
            (settle(&v, from), string_of(&v, from, stem_end))
        },
        None => {
            proof {
                assert(v@.take(v@.len() as int) =~= v@);
            }
            (v.len(), "cropped_stack".to_owned())
        },
    };
    let ghost dir = v@.take(dir_end as int);
    let ghost tail = base@ + "_crop.json"@;
    let mut r: String = string_of(&v, 0, dir_end);
    proof {
        assert(v@.subrange(0, dir_end as int) =~= dir);
    }
    if dir_end > 0 && v[dir_end - 1] != '/' {
        r.append("/");
        proof {
            reveal_strlit("/");
            assert("/"@ =~= seq!['/']);
            assert(dir + "/"@ =~= dir.push('/'));
        }
    }
    let ghost start = r@;
    r.append(base.as_str());
    r.append("_crop.json");
    proof {
        assert(start + base@ + "_crop.json"@ =~= start + tail);
    }
    r
}

/// What a folder or file is called.
pub fn folder_label(p: &str) -> (r: String)
    ensures
        r@ == label(p@),
{
    match find_file_name(p) {
        Some(name) => name,
        None => p.to_owned(),
    }
}

// ----- laws --------------------------------------------------------------------

/// The sidecar of a stack lies in the directory of the stack, and is called
/// after it.
pub proof fn law_sidecar_is_next_to_the_stack(stack: Seq<char>)
    requires
        file_name(stack) is Some,
    ensures
        parent(sidecar(stack)) == parent(stack),
        file_name(sidecar(stack)) == Some(stem(file_name(stack)->0) + "_crop.json"@),
{
    let t = settled(stack);
    let name = file_name(stack)->0;
    let other = stem(name) + "_crop.json"@;
    let dir = parent(stack);
    lemma_tail_has_none(t, '/');
    lemma_tail_has_none(name, '.');
    reveal_strlit("_crop.json");
    assert forall|i: int| 0 <= i < other.len() implies other[i] != '/' by {
        if i < stem(name).len() {
            assert(other[i] == name[i]);
        }
    }
    lemma_settled(t.take(after_last(t, '/')));
    let front = below(dir, Seq::empty());
    let p = sidecar(stack);
    assert(p =~= front + other);
    assert(p.last() == 'n');
    assert(!ends_idle(p));
    lemma_last_in_tail(front, other, '/');
    assert(front.len() > 0 ==> front.last() == '/');
    assert(p.skip(front.len() as int) =~= other);
    assert(p.take(front.len() as int) =~= front);
    assert(p.len() > 2);
    if dir.len() > 0 && dir.last() != '/' {
        assert(front =~= dir.push('/'));
        assert(front.drop_last() =~= dir);
        assert(ends_idle(front));
        assert(settled(front) == settled(front.drop_last()));
    } else {
        assert(front =~= dir);
    }
}

/// A name is its stem, a dot and its extension, which holds no dot; or it has no
/// dot but one that comes first, and is its own stem.
pub proof fn law_name_is_stem_and_extension(name: Seq<char>)
    ensures
        match extension(name) {
            Some(ext) => {
                &&& stem(name).len() > 0
                &&& name == stem(name).push('.') + ext
                &&& forall|i: int| 0 <= i < ext.len() ==> #[trigger] ext[i] != '.'
            },
            None => {
                &&& stem(name) == name
                &&& forall|i: int| 1 <= i < name.len() ==> #[trigger] name[i] != '.'
            },
        },
{
    let at = after_last(name, '.');
    lemma_tail_has_none(name, '.');
    lemma_before_tail(name, '.');
    if at > 1 {
        assert(name =~= name.take(at - 1).push('.') + name.skip(at));
    }
}

proof fn lemma_before_tail(p: Seq<char>, c: char)
    ensures
        after_last(p, c) > 0 ==> p[after_last(p, c) - 1] == c,
    decreases p.len(),
{
    if p.len() > 0 && p.last() != c {
        lemma_tail_has_none(p.drop_last(), c);
        lemma_before_tail(p.drop_last(), c);
    }
}

/// A name below a directory is the name of the path, whatever the directory, and
/// slashes that follow change nothing.
pub proof fn law_path_ends_with_its_name(dir: Seq<char>, name: Seq<char>)
    requires
        name.len() > 0,
        name != seq!['.'],
        name != seq!['.', '.'],
        forall|i: int| 0 <= i < name.len() ==> #[trigger] name[i] != '/',
    ensures
        file_name(dir.push('/') + name) == Some(name),
        file_name((dir.push('/') + name).push('/')) == Some(name),
        file_name(name) == Some(name),
        label(dir.push('/') + name) == name,
        file_name(below(dir, name)) == Some(name),
        parent(below(dir, name)) == settled(dir),
{
    let p = dir.push('/') + name;
    lemma_named(dir.push('/'), name);
    lemma_named(Seq::empty(), name);
    assert(Seq::<char>::empty() + name =~= name);
    assert(p.push('/').drop_last() =~= p);
    assert(ends_idle(p.push('/')));
    assert(settled(p.push('/')) == settled(p));
    if dir.len() > 0 && dir.last() != '/' {
        let front = dir.push('/');
        assert(front.drop_last() =~= dir);
        assert(ends_idle(front));
        assert(settled(front) == settled(dir));
    } else {
        lemma_named(dir, name);
    }
}

proof fn lemma_named(front: Seq<char>, name: Seq<char>)
    requires
        front.len() == 0 || front.last() == '/',
        name.len() > 0,
        name != seq!['.'],
        name != seq!['.', '.'],
        forall|i: int| 0 <= i < name.len() ==> #[trigger] name[i] != '/',
    ensures
        file_name(front + name) == Some(name),
        parent(front + name) == settled(front),
{
    let p = front + name;
    let n = name.len();
    assert(p.last() == name[n - 1]);
    if name[n - 1] == '.' {
        if n == 1 {
            assert(name =~= seq!['.']);
        } else {
            assert(p[p.len() - 2] == name[n - 2]);
        }
    }
    assert(!ends_idle(p));
    lemma_last_in_tail(front, name, '/');
    assert(p.skip(front.len() as int) =~= name);
    assert(p.take(front.len() as int) =~= front);
    if p.len() == 1 {
        assert(p[0] == name[0]);
    }
}

/// Settling leaves nothing to settle.
proof fn lemma_settled(p: Seq<char>)
    ensures
        !ends_idle(settled(p)),
        settled(settled(p)) == settled(p),
    decreases p.len(),
{
    if ends_idle(p) {
        lemma_settled(p.drop_last());
    }
}

proof fn lemma_tail_has_none(p: Seq<char>, c: char)
    ensures
        0 <= after_last(p, c) <= p.len(),
        forall|i: int| after_last(p, c) <= i < p.len() ==> p[i] != c,
    decreases p.len(),
{
    if p.len() > 0 && p.last() != c {
        lemma_tail_has_none(p.drop_last(), c);
        assert forall|i: int| after_last(p, c) <= i < p.len() implies p[i] != c by {
            if i < p.len() - 1 {
                assert(p[i] == p.drop_last()[i]);
            }
        }
    }
}

proof fn lemma_last_in_tail(d: Seq<char>, name: Seq<char>, c: char)
    requires
        forall|i: int| 0 <= i < name.len() ==> name[i] != c,
    ensures
        after_last(d + name, c) == after_last(d, c),
    decreases name.len(),
{
    if name.len() > 0 {
        let p = d + name;
        assert(p.drop_last() =~= d + name.drop_last());
        lemma_last_in_tail(d, name.drop_last(), c);
    } else {
        assert(d + name =~= d);
    }
}

} // verus!
