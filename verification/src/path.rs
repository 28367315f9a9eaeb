//! Unix paths as byte strings.
//!
//! A path is a sequence of bytes in which `/` separates names. Repeated separators, trailing
//! separators and `.` names carry no meaning, except for one `.` that opens a relative path. What a
//! path means is the sequence of its [`components`](components_of).
use crate::bytes::{extend_bytes, same_bytes};
use vstd::prelude::*;
use vstd::slice::{slice_subrange, slice_to_vec};

verus! {

/// The byte that separates names.
pub const SLASH: u8 = 0x2f;

/// The byte of which `.` and `..` are made.
pub const DOT: u8 = 0x2e;

/// One component of a path.
#[derive(Debug)]
pub enum Component {
    /// The leading `/` of an absolute path.
    RootDir,
    /// A `.` that opens a relative path.
    CurDir,
    /// A `..`.
    ParentDir,
    /// Any other name.
    Normal(Vec<u8>),
}

/// The meaning of a [`Component`].
pub enum Part {
    RootDir,
    CurDir,
    ParentDir,
    Normal(Seq<u8>),
}

impl View for Component {
    type V = Part;

    open spec fn view(&self) -> Part {
        match self {
            Component::RootDir => Part::RootDir,
            Component::CurDir => Part::CurDir,
            Component::ParentDir => Part::ParentDir,
            Component::Normal(name) => Part::Normal(name@),
        }
    }
}

/// The meanings of a list of components.
pub open spec fn parts_of(list: Seq<Component>) -> Seq<Part> {
    list.map_values(|c: Component| c@)
}

/// The name `.`.
pub open spec fn dot() -> Seq<u8> {
    seq![DOT]
}

/// The name `..`.
pub open spec fn dot_dot() -> Seq<u8> {
    seq![DOT, DOT]
}

/// Whether a path starts at the root.
pub open spec fn is_absolute(path: Seq<u8>) -> bool {
    path.len() > 0 && path[0] == SLASH
}

/// Whether a path opens with the name `.`.
pub open spec fn opens_with_dot(path: Seq<u8>) -> bool {
    path.len() > 0 && path[0] == DOT && (path.len() == 1 || path[1] == SLASH)
}

/// The stretches of a path between its separators, empty ones among them.
pub open spec fn split(path: Seq<u8>) -> Seq<Seq<u8>>
    decreases path.len(),
{
    if path.len() == 0 {
        seq![Seq::empty()]
    } else {
        let front = split(path.drop_last());
        if path.last() == SLASH {
            front.push(Seq::empty())
        } else {
            front.drop_last().push(front.last().push(path.last()))
        }
    }
}

/// What a list of names means: empty names and `.` mean nothing.
pub open spec fn names(list: Seq<Seq<u8>>) -> Seq<Part>
    decreases list.len(),
{
    if list.len() == 0 {
        Seq::empty()
    } else {
        let front = names(list.drop_last());
        let name = list.last();
        if name.len() == 0 || name == dot() {
            front
        } else if name == dot_dot() {
            front.push(Part::ParentDir)
        } else {
            front.push(Part::Normal(name))
        }
    }
}

/// The component that comes before the names of a path, if there is one.
pub open spec fn lead(path: Seq<u8>) -> Seq<Part> {
    if is_absolute(path) {
        seq![Part::RootDir]
    } else if opens_with_dot(path) {
        seq![Part::CurDir]
    } else {
        Seq::empty()
    }
}

/// The components of a path.
pub open spec fn components_of(path: Seq<u8>) -> Seq<Part> {
    lead(path) + names(split(path))
}

/// Whether `path` lies at or below `base`: the components of `base` open those of `path`.
pub open spec fn inside(path: Seq<u8>, base: Seq<u8>) -> bool {
    components_of(base).is_prefix_of(components_of(path))
}

/// `path` seen from `base`: an absolute path stands for itself.
pub open spec fn joined(base: Seq<u8>, path: Seq<u8>) -> Seq<u8> {
    if is_absolute(path) {
        path
    } else if base.len() == 0 || base.last() == SLASH {
        base + path
    } else {
        base.push(SLASH) + path
    }
}

/// How a component is written.
pub open spec fn part_bytes(part: Part) -> Seq<u8> {
    match part {
        Part::RootDir => seq![SLASH],
        Part::CurDir => dot(),
        Part::ParentDir => dot_dot(),
        Part::Normal(name) => name,
    }
}

/// The path with the given components.
pub open spec fn rendered(parts: Seq<Part>) -> Seq<u8>
    decreases parts.len(),
{
    if parts.len() == 0 {
        Seq::empty()
    } else {
        joined(rendered(parts.drop_last()), part_bytes(parts.last()))
    }
}

/// A path without the separators and `.` names at its end.
pub open spec fn trimmed(path: Seq<u8>) -> Seq<u8>
    decreases path.len(),
{
    if path.len() < 2 {
        path
    } else if path.last() == SLASH {
        trimmed(path.drop_last())
    } else if path.last() == DOT && path[path.len() - 2] == SLASH {
        trimmed(path.drop_last())
    } else {
        path
    }
}

/// Where the last name of a path starts.
pub open spec fn last_name_start(path: Seq<u8>) -> int
    decreases path.len(),
{
    if path.len() == 0 || path.last() == SLASH {
        path.len() as int
    } else {
        last_name_start(path.drop_last())
    }
}

/// The path without its last component, if it has one other than the root.
pub open spec fn parent_of(path: Seq<u8>) -> Option<Seq<u8>> {
    let core = trimmed(path);
    if core.len() == 0 || core.last() == SLASH {
        None
    } else {
        Some(trimmed(core.take(last_name_start(core))))
    }
}

/// Components with each `..` taken together with the name before it, and without `.`.
/// There is no such form if a `..` leads above the root.
pub open spec fn normal_form(parts: Seq<Part>) -> Option<Seq<Part>>
    decreases parts.len(),
{
    if parts.len() == 0 {
        Some(Seq::empty())
    } else {
        match normal_form(parts.drop_last()) {
            None => None,
            Some(front) => match parts.last() {
                Part::CurDir => Some(front),
                Part::ParentDir => if front.len() == 0 || front.last() is ParentDir {
                    Some(front.push(Part::ParentDir))
                } else if front.last() is RootDir {
                    None
                } else {
                    Some(front.drop_last())
                },
                part => Some(front.push(part)),
            },
        }
    }
}

/// The path in normal form.
pub open spec fn normalized(path: Seq<u8>) -> Option<Seq<u8>> {
    match normal_form(components_of(path)) {
        None => None,
        Some(parts) => Some(rendered(parts)),
    }
}

/// What `split` gives always has a last element.
pub proof fn lemma_split_nonempty(path: Seq<u8>)
    ensures
        split(path).len() > 0,
    decreases path.len(),
{
    if path.len() > 0 {
        lemma_split_nonempty(path.drop_last());
    }
}

/// Splitting commutes with putting a separator between two paths.
pub proof fn lemma_split_join(a: Seq<u8>, b: Seq<u8>)
    ensures
        split(a.push(SLASH) + b) == split(a) + split(b),
    decreases b.len(),
{
    let whole = a.push(SLASH) + b;
    if b.len() == 0 {
        assert(whole =~= a.push(SLASH));
        assert(whole.drop_last() =~= a);
        assert(split(a).push(Seq::empty()) =~= split(a) + split(b));
    } else {
        assert(whole.drop_last() =~= a.push(SLASH) + b.drop_last());
        lemma_split_join(a, b.drop_last());
        lemma_split_nonempty(b.drop_last());
        let front = split(b.drop_last());
        assert((split(a) + front).last() == front.last());
        if b.last() == SLASH {
            assert((split(a) + front).push(Seq::empty()) =~= split(a) + front.push(Seq::empty()));
        } else {
            let word = front.last().push(b.last());
            assert((split(a) + front).drop_last().push(word) =~= split(a) + front.drop_last().push(
                word,
            ));
        }
    }
}

/// A stretch without separators is one name.
pub proof fn lemma_split_word(word: Seq<u8>)
    requires
        !word.contains(SLASH),
    ensures
        split(word) == seq![word],
    decreases word.len(),
{
    if word.len() > 0 {
        let front = word.drop_last();
        assert(word.last() != SLASH) by {
            assert(word[word.len() - 1] == word.last());
        }
        assert(!front.contains(SLASH)) by {
            if front.contains(SLASH) {
                let i = choose|i: int| 0 <= i < front.len() && front[i] == SLASH;
                assert(word[i] == SLASH);
            }
        }
        lemma_split_word(front);
        assert(front.push(word.last()) =~= word);
        assert(seq![front].drop_last().push(word) =~= seq![word]);
    } else {
        assert(word =~= Seq::empty());
    }
}

/// The meaning of two lists of names is the two meanings side by side.
pub proof fn lemma_names_add(a: Seq<Seq<u8>>, b: Seq<Seq<u8>>)
    ensures
        names(a + b) == names(a) + names(b),
    decreases b.len(),
{
    if b.len() == 0 {
        assert(a + b =~= a);
    } else {
        assert((a + b).drop_last() =~= a + b.drop_last());
        lemma_names_add(a, b.drop_last());
        assert((a + b).last() == b.last());
    }
}

/// The component that a single name means, if it means anything.
pub open spec fn name_part(name: Seq<u8>) -> Seq<Part> {
    if name.len() == 0 || name == dot() {
        Seq::empty()
    } else if name == dot_dot() {
        seq![Part::ParentDir]
    } else {
        seq![Part::Normal(name)]
    }
}

/// A list of one name means what the name means.
pub proof fn lemma_names_one(name: Seq<u8>)
    ensures
        names(seq![name]) == name_part(name),
{
    let list = seq![name];
    assert(list.drop_last() =~= Seq::empty());
    assert(names(list.drop_last()) =~= Seq::empty());
    assert(names(list) =~= name_part(name));
}

/// The components of the empty path, of the root and of a single name.
pub proof fn lemma_components_short(word: Seq<u8>)
    requires
        !word.contains(SLASH),
    ensures
        components_of(Seq::empty()) == Seq::<Part>::empty(),
        components_of(seq![SLASH]) == seq![Part::RootDir],
        components_of(word) == if word == dot() {
            seq![Part::CurDir]
        } else {
            name_part(word)
        },
        !is_absolute(word),
{
    let empty = Seq::<u8>::empty();
    lemma_split_word(empty);
    lemma_names_one(empty);
    assert(components_of(empty) =~= Seq::<Part>::empty());
    lemma_split_join(empty, empty);
    assert(empty.push(SLASH) + empty =~= seq![SLASH]);
    lemma_names_add(split(empty), split(empty));
    assert(components_of(seq![SLASH]) =~= seq![Part::RootDir]);
    lemma_split_word(word);
    lemma_names_one(word);
    assert(!is_absolute(word)) by {
        if is_absolute(word) {
            assert(word.contains(word[0]));
        }
    }
    assert(opens_with_dot(word) <==> word == dot()) by {
        if opens_with_dot(word) {
            if word.len() > 1 {
                assert(word.contains(word[1]));
            }
            assert(word =~= dot());
        }
    }
    if word == dot() {
        assert(components_of(word) =~= seq![Part::CurDir]);
    } else {
        assert(components_of(word) =~= name_part(word));
    }
}

/// A separator at the end of a path that is not empty means nothing.
pub proof fn lemma_trailing_slash(path: Seq<u8>)
    requires
        path.len() > 0,
    ensures
        components_of(path.push(SLASH)) == components_of(path),
{
    let long = path.push(SLASH);
    assert(long.drop_last() =~= path);
    assert(split(long) == split(path).push(Seq::empty()));
    assert(split(long).drop_last() =~= split(path));
}

/// Trimming a path keeps its meaning and leaves nothing to trim.
pub proof fn lemma_trimmed(path: Seq<u8>)
    ensures
        components_of(trimmed(path)) == components_of(path),
        trimmed(path).len() <= path.len(),
        trimmed(path).len() == 0 <==> path.len() == 0,
        is_absolute(trimmed(path)) == is_absolute(path),
        ({
            let core = trimmed(path);
            core.len() >= 2 ==> core.last() != SLASH && !(core.last() == DOT && core[core.len() - 2]
                == SLASH)
        }),
    decreases path.len(),
{
    if path.len() >= 2 {
        let front = path.drop_last();
        if path.last() == SLASH {
            lemma_trimmed(front);
            lemma_trailing_slash(front);
            assert(front.push(SLASH) =~= path);
        } else if path.last() == DOT && path[path.len() - 2] == SLASH {
            lemma_trimmed(front);
            let rest = front.drop_last();
            assert(front =~= rest.push(SLASH));
            assert(path =~= rest.push(SLASH) + dot());
            lemma_split_join(rest, dot());
            lemma_split_word(dot());
            assert(split(front) == split(rest).push(Seq::empty()));
            assert(split(path) =~= split(rest).push(dot()));
            assert(split(front).drop_last() =~= split(rest));
            assert(split(path).drop_last() =~= split(rest));
            assert(names(split(path)) == names(split(front)));
        }
    }
}

/// The last name of a path is what stands after its last separator.
pub proof fn lemma_last_name(path: Seq<u8>)
    ensures
        0 <= last_name_start(path) <= path.len(),
        last_name_start(path) > 0 ==> path[last_name_start(path) - 1] == SLASH,
        !path.skip(last_name_start(path)).contains(SLASH),
    decreases path.len(),
{
    let start = last_name_start(path);
    if path.len() == 0 || path.last() == SLASH {
        assert(path.skip(start) =~= Seq::empty());
    } else {
        let front = path.drop_last();
        lemma_last_name(front);
        assert(path.skip(start) =~= front.skip(start).push(path.last()));
        assert forall|i: int| 0 <= i < path.skip(start).len() implies path.skip(start)[i]
            != SLASH by {
            if i < front.skip(start).len() {
                assert(front.skip(start)[i] == path.skip(start)[i]);
                assert(front.skip(start).contains(front.skip(start)[i]));
            }
        }
    }
}

/// Going to the parent takes the last component away; there is no parent exactly if there is no
/// component to take, or only the root.
pub proof fn lemma_parent(path: Seq<u8>)
    ensures
        parent_of(path) is None <==> components_of(path).len() == 0 || components_of(path) == seq![
            Part::RootDir,
        ],
        parent_of(path) matches Some(up) ==> {
            &&& components_of(up) == components_of(path).drop_last()
            &&& up.len() < path.len()
            &&& is_absolute(up) == is_absolute(path)
        },
{
    let core = trimmed(path);
    lemma_trimmed(path);
    lemma_last_name(core);
    let start = last_name_start(core);
    let name = core.skip(start);
    lemma_components_short(name);
    if core.len() == 0 {
        assert(core =~= Seq::empty());
    } else if core.last() == SLASH {
        assert(core =~= seq![SLASH]);
    } else {
        let head = core.take(start);
        lemma_trimmed(head);
        assert(name.len() > 0) by {
            if start == core.len() {
                assert(core[start - 1] == SLASH);
            }
        }
        if start == 0 {
            assert(name =~= core);
            assert(head =~= Seq::empty());
            assert(components_of(core).drop_last() =~= Seq::empty());
            assert(!(components_of(core)[0] is RootDir));
        } else {
            let front = core.take(start - 1);
            assert(head =~= front.push(SLASH));
            assert(core =~= front.push(SLASH) + name);
            lemma_split_join(front, name);
            lemma_split_word(name);
            assert(split(core) =~= split(front).push(name));
            assert(split(core).drop_last() =~= split(front));
            assert(name != dot()) by {
                if name == dot() {
                    assert(core.len() == start + 1);
                    assert(core.last() == name[0]);
                }
            }
            assert(head.drop_last() =~= front);
            assert(split(head) == split(front).push(Seq::empty()));
            assert(split(head).drop_last() =~= split(front));
            assert(names(split(head)) == names(split(front)));
            assert(lead(head) == lead(core));
            assert(components_of(core).drop_last() =~= components_of(head));
            assert(!(components_of(core).last() is RootDir));
            assert(seq![Part::RootDir].last() is RootDir);
        }
    }
}

/// Joining a relative path to one that is not empty adds what its names mean.
pub proof fn lemma_joined(base: Seq<u8>, path: Seq<u8>)
    requires
        !is_absolute(path),
    ensures
        base.len() > 0 ==> components_of(joined(base, path)) == components_of(base) + names(
            split(path),
        ),
        base.len() == 0 ==> joined(base, path) == path,
        base.len() > 0 ==> is_absolute(joined(base, path)) == is_absolute(base),
{
    let whole = joined(base, path);
    if base.len() == 0 {
        assert(whole =~= path);
    } else if base.last() == SLASH {
        let front = base.drop_last();
        assert(base =~= front.push(SLASH));
        lemma_split_join(front, path);
        assert(split(base) == split(front).push(Seq::empty()));
        assert(split(base).drop_last() =~= split(front));
        assert(names(split(base)) == names(split(front)));
        lemma_names_add(split(front), split(path));
        assert(lead(whole) == lead(base)) by {
            if base.len() == 1 {
                assert(whole[0] == SLASH);
            }
        }
        assert(components_of(whole) =~= components_of(base) + names(split(path)));
    } else {
        lemma_split_join(base, path);
        lemma_names_add(split(base), split(path));
        assert(lead(whole) == lead(base));
        assert(components_of(whole) =~= components_of(base) + names(split(path)));
    }
}

/// Whether a component can stand at the given place of a path.
pub open spec fn fits_at(part: Part, at: int) -> bool {
    match part {
        Part::RootDir => at == 0,
        Part::CurDir => at == 0,
        Part::ParentDir => true,
        Part::Normal(name) => name.len() > 0 && !name.contains(SLASH) && name != dot() && name
            != dot_dot(),
    }
}

/// Whether a list of components can be that of a path.
pub open spec fn is_component_list(parts: Seq<Part>) -> bool {
    forall|i: int| 0 <= i < parts.len() ==> fits_at(#[trigger] parts[i], i)
}

/// A path written from its components has these components.
pub proof fn lemma_rendered(parts: Seq<Part>)
    requires
        is_component_list(parts),
    ensures
        components_of(rendered(parts)) == parts,
        rendered(parts).len() == 0 <==> parts.len() == 0,
    decreases parts.len(),
{
    if parts.len() == 0 {
        lemma_components_short(Seq::empty());
        assert(parts =~= Seq::empty());
    } else {
        let front = parts.drop_last();
        let last = parts.last();
        assert(fits_at(parts[parts.len() - 1], parts.len() - 1));
        assert(is_component_list(front)) by {
            assert forall|i: int| 0 <= i < front.len() implies fits_at(#[trigger] front[i], i) by {
                assert(fits_at(parts[i], i));
            }
        }
        lemma_rendered(front);
        let base = rendered(front);
        let bytes = part_bytes(last);
        if last is RootDir {
            lemma_components_short(Seq::empty());
            assert(rendered(parts) == bytes);
            assert(parts =~= seq![Part::RootDir]);
        } else {
            assert(!bytes.contains(SLASH));
            lemma_components_short(bytes);
            lemma_joined(base, bytes);
            lemma_split_word(bytes);
            lemma_names_one(bytes);
            assert(dot() != dot_dot()) by {
                assert(dot().len() != dot_dot().len());
            }
            if front.len() == 0 {
                assert(base =~= Seq::empty());
                assert(parts =~= seq![last]);
            } else {
                assert(parts =~= front + seq![last]);
            }
        }
    }
}

/// The components of any path form a list that can be written as a path.
pub proof fn lemma_components_fit(path: Seq<u8>)
    ensures
        is_component_list(components_of(path)),
{
    lemma_names_fit(path);
    let list = names(split(path));
    assert forall|i: int| 0 <= i < components_of(path).len() implies fits_at(
        #[trigger] components_of(path)[i],
        i,
    ) by {
        if i >= lead(path).len() {
            assert(components_of(path)[i] == list[i - lead(path).len()]);
        }
    }
}

/// No stretch of a split path holds a separator.
pub proof fn lemma_split_words(path: Seq<u8>)
    ensures
        forall|i: int| 0 <= i < split(path).len() ==> !(#[trigger] split(path)[i]).contains(SLASH),
    decreases path.len(),
{
    if path.len() > 0 {
        lemma_split_words(path.drop_last());
        lemma_split_nonempty(path.drop_last());
        let front = split(path.drop_last());
        assert forall|i: int| 0 <= i < split(path).len() implies !(#[trigger] split(
            path,
        )[i]).contains(SLASH) by {
            if path.last() == SLASH {
                if i < front.len() {
                    assert(split(path)[i] == front[i]);
                }
            } else if i < front.len() - 1 {
                assert(split(path)[i] == front[i]);
            } else {
                let word = front.last().push(path.last());
                assert(!front[front.len() - 1].contains(SLASH));
                if word.contains(SLASH) {
                    let j = choose|j: int| 0 <= j < word.len() && word[j] == SLASH;
                    assert(front.last()[j] == SLASH);
                    assert(front.last().contains(SLASH));
                }
            }
        }
    }
}

/// Every name of a split path can stand anywhere in a path.
proof fn lemma_names_fit(path: Seq<u8>)
    ensures
        forall|i: int, at: int|
            0 <= i < names(split(path)).len() ==> #[trigger] fits_at(names(split(path))[i], at),
        forall|i: int|
            0 <= i < names(split(path)).len() ==> !((#[trigger] names(split(path))[i]) is RootDir)
                && !(names(split(path))[i] is CurDir),
{
    lemma_split_words(path);
    lemma_names_fit_list(split(path));
}

/// Names without separators can stand anywhere in a path.
proof fn lemma_names_fit_list(list: Seq<Seq<u8>>)
    requires
        forall|i: int| 0 <= i < list.len() ==> !(#[trigger] list[i]).contains(SLASH),
    ensures
        forall|i: int, at: int|
            0 <= i < names(list).len() ==> #[trigger] fits_at(names(list)[i], at),
        forall|i: int|
            0 <= i < names(list).len() ==> !((#[trigger] names(list)[i]) is RootDir) && !(names(
                list,
            )[i] is CurDir),
    decreases list.len(),
{
    if list.len() > 0 {
        let front = list.drop_last();
        assert forall|i: int| 0 <= i < front.len() implies !(#[trigger] front[i]).contains(
            SLASH,
        ) by {
            assert(front[i] == list[i]);
        }
        lemma_names_fit_list(front);
        assert(!list[list.len() - 1].contains(SLASH));
    }
}

/// Whether components are in normal form: without `.`, and with `..` only at the front.
pub open spec fn is_normal(parts: Seq<Part>) -> bool {
    &&& forall|i: int| 0 <= i < parts.len() ==> !(#[trigger] parts[i] is CurDir)
    &&& forall|i: int, j: int|
        0 <= j < i < parts.len() && #[trigger] parts[i] is ParentDir ==> #[trigger] parts[j]
            is ParentDir
}

/// Whether components start at the root.
pub open spec fn is_rooted(parts: Seq<Part>) -> bool {
    parts.len() > 0 && parts[0] is RootDir
}

/// The components of an absolute path, and of no other, start at the root.
pub proof fn lemma_rooted(path: Seq<u8>)
    ensures
        is_rooted(components_of(path)) == is_absolute(path),
{
    lemma_names_fit(path);
    if !is_absolute(path) && components_of(path).len() > 0 && lead(path).len() == 0 {
        assert(components_of(path)[0] == names(split(path))[0]);
    }
}

/// What `normal_form` gives is in normal form, and keeps the root.
proof fn lemma_normal_form(parts: Seq<Part>)
    requires
        is_component_list(parts),
    ensures
        normal_form(parts) matches Some(form) ==> {
            &&& is_normal(form)
            &&& is_component_list(form)
            &&& is_rooted(form) == is_rooted(parts)
        },
    decreases parts.len(),
{
    if parts.len() > 0 {
        let rest = parts.drop_last();
        assert(is_component_list(rest)) by {
            assert forall|i: int| 0 <= i < rest.len() implies fits_at(#[trigger] rest[i], i) by {
                assert(fits_at(parts[i], i));
            }
        }
        lemma_normal_form(rest);
        assert(fits_at(parts[parts.len() - 1], parts.len() - 1));
        if let Some(front) = normal_form(rest) {
            if let Some(form) = normal_form(parts) {
                assert forall|i: int| 0 <= i < form.len() implies fits_at(
                    #[trigger] form[i],
                    i,
                ) by {
                    if i < front.len() {
                        assert(fits_at(front[i], i));
                    }
                }
                if parts.last() is ParentDir && front.len() > 0 && front.last() is ParentDir {
                    assert forall|j: int| 0 <= j < front.len() implies #[trigger] front[j]
                        is ParentDir by {
                        assert(front[front.len() - 1] is ParentDir);
                    }
                }
                assert(rest.len() > 0 ==> rest[0] == parts[0]);
            }
        }
    }
}

/// Components in normal form are their own normal form.
proof fn lemma_normal_is_fixed(parts: Seq<Part>)
    requires
        is_normal(parts),
    ensures
        normal_form(parts) == Some(parts),
    decreases parts.len(),
{
    if parts.len() == 0 {
        assert(parts =~= Seq::empty());
    } else {
        let front = parts.drop_last();
        assert(parts[parts.len() - 1] == parts.last());
        assert(is_normal(front)) by {
            assert forall|i: int, j: int|
                0 <= j < i < front.len() && #[trigger] front[i] is ParentDir
                implies #[trigger] front[j] is ParentDir by {
                assert(parts[i] is ParentDir && parts[j] is ParentDir);
            }
        }
        lemma_normal_is_fixed(front);
        if parts.last() is ParentDir && front.len() > 0 {
            assert(parts[front.len() - 1] is ParentDir);
        }
        assert(front.push(parts.last()) =~= parts);
    }
}

/// A path in normal form has no `.` in it and no `..` behind a name, so an absolute one has no
/// `..` at all. Taking the normal form keeps a path absolute or relative, and taking it again
/// changes nothing.
pub proof fn law_normalized(path: Seq<u8>)
    ensures
        normalized(path) matches Some(out) ==> {
            &&& is_normal(components_of(out))
            &&& is_absolute(out) == is_absolute(path)
            &&& is_absolute(out) ==> !components_of(out).contains(Part::ParentDir)
            &&& normalized(out) == Some(out)
        },
{
    let parts = components_of(path);
    lemma_components_fit(path);
    lemma_normal_form(parts);
    lemma_rooted(path);
    if let Some(form) = normal_form(parts) {
        let out = rendered(form);
        lemma_rendered(form);
        lemma_rooted(out);
        lemma_normal_is_fixed(form);
        if is_absolute(out) && form.contains(Part::ParentDir) {
            let i = choose|i: int| 0 <= i < form.len() && form[i] == Part::ParentDir;
            assert(form[i] is ParentDir);
            assert(form[0] is RootDir);
        }
    }
}

/// A single name, without any separator, is one component: `.` and `..` have their own, the empty
/// name has none, and any other name stands for itself.
pub proof fn law_components_of_a_name(word: Seq<u8>)
    requires
        !word.contains(0x2f),
    ensures
        word.len() == 0 ==> components_of(word).len() == 0,
        word == seq![0x2eu8] ==> components_of(word) == seq![Part::CurDir],
        word == seq![0x2eu8, 0x2eu8] ==> components_of(word) == seq![Part::ParentDir],
        word.len() > 0 && word != seq![0x2eu8] && word != seq![0x2eu8, 0x2eu8] ==> components_of(
            word,
        ) == seq![Part::Normal(word)],
{
    lemma_components_short(word);
    assert(seq![0x2eu8] =~= dot());
    assert(seq![0x2eu8, 0x2eu8] =~= dot_dot());
    assert(dot().len() == 1 && dot_dot().len() == 2);
}

/// Each name behind a separator adds its own component and leaves those before it alone; an empty
/// name and a `.` add none. A path that opens with a separator starts at the root.
pub proof fn law_components_grow_by_names(path: Seq<u8>, word: Seq<u8>)
    requires
        !word.contains(0x2f),
    ensures
        ({
            let before = if path.len() == 0 {
                seq![Part::RootDir]
            } else {
                components_of(path)
            };
            let whole = components_of(path.push(0x2f) + word);
            &&& word.len() == 0 || word == seq![0x2eu8] ==> whole == before
            &&& word == seq![0x2eu8, 0x2eu8] ==> whole == before.push(Part::ParentDir)
            &&& word.len() > 0 && word != seq![0x2eu8] && word != seq![0x2eu8, 0x2eu8] ==> whole
                == before.push(Part::Normal(word))
        }),
{
    let whole = path.push(SLASH) + word;
    lemma_split_join(path, word);
    lemma_split_word(word);
    lemma_names_add(split(path), split(word));
    lemma_names_one(word);
    assert(seq![0x2eu8] =~= dot());
    assert(seq![0x2eu8, 0x2eu8] =~= dot_dot());
    assert(dot().len() == 1 && dot_dot().len() == 2);
    if path.len() == 0 {
        lemma_split_word(path);
        lemma_names_one(path);
        assert(names(split(path)) =~= Seq::empty());
        assert(lead(whole) == seq![Part::RootDir]);
        assert(components_of(whole) =~= seq![Part::RootDir] + name_part(word));
    } else {
        assert(lead(whole) == lead(path));
        assert(components_of(whole) =~= components_of(path) + name_part(word));
    }
}

/// A path lies inside a base exactly if its components are those of the base and then some more,
/// or none.
pub proof fn law_inside_adds_components(path: Seq<u8>, base: Seq<u8>)
    ensures
        inside(path, base) <==> exists|more: Seq<Part>|
            components_of(path) == #[trigger] (components_of(base) + more),
{
    let whole = components_of(path);
    let front = components_of(base);
    if inside(path, base) {
        assert(whole =~= front + whole.skip(front.len() as int));
    }
    if exists|more: Seq<Part>| whole == #[trigger] (front + more) {
        let more = choose|more: Seq<Part>| whole == #[trigger] (front + more);
        assert(front =~= whole.subrange(0, front.len() as int));
    }
}

/// An absolute path stays itself when it is joined. A relative one is put behind the base, with one
/// separator between them where the base neither is empty nor ends in one, and nothing else.
pub proof fn law_joined_keeps_both(base: Seq<u8>, path: Seq<u8>)
    ensures
        path.len() > 0 && path[0] == 0x2f ==> joined(base, path) == path,
        path.len() == 0 || path[0] != 0x2f ==> {
            let whole = joined(base, path);
            let gap = whole.len() - base.len() - path.len();
            &&& base.is_prefix_of(whole)
            &&& gap >= 0
            &&& whole.skip(base.len() + gap) == path
            &&& gap == 0 <==> base.len() == 0 || base.last() == 0x2f
            &&& gap != 0 ==> gap == 1 && whole[base.len() as int] == 0x2f
        },
{
    let whole = joined(base, path);
    let gap = whole.len() - base.len() - path.len();
    if !is_absolute(path) {
        assert(whole.skip(base.len() + gap) =~= path);
        assert(base =~= whole.subrange(0, base.len() as int));
    }
}

/// Whether a path is written without anything that carries no meaning: no two separators in a row,
/// none at the end but that of the root, and no `.` behind a separator.
pub open spec fn is_plain(path: Seq<u8>) -> bool {
    &&& path.len() > 1 ==> path.last() != 0x2f
    &&& forall|i: int|
        0 < i < path.len() && path[i - 1] == 0x2f ==> #[trigger] path[i] != 0x2f && !(path[i]
            == 0x2e && (i + 1 == path.len() || path[i + 1] == 0x2f))
}

/// A name put behind a path that is written plainly leaves it plain.
pub proof fn lemma_joined_is_plain(base: Seq<u8>, word: Seq<u8>)
    requires
        is_plain(base),
        word.len() > 0,
        !word.contains(0x2f),
        base.len() > 0 ==> word != seq![0x2eu8],
    ensures
        is_plain(joined(base, word)),
{
    let whole = joined(base, word);
    assert(word.contains(word[0]));
    law_joined_keeps_both(base, word);
    let gap = whole.len() - base.len() - word.len();
    let start = base.len() + gap;
    assert(whole.skip(start) == word);
    assert forall|i: int| start <= i < whole.len() implies whole[i] != 0x2f && whole[i] == word[i
        - start] by {
        assert(whole.skip(start)[i - start] == whole[i]);
        assert(word.contains(word[i - start]));
    }
    assert forall|i: int| 0 <= i < base.len() implies whole[i] == base[i] by {
        assert(base[i] == whole.subrange(0, base.len() as int)[i]);
    }
    assert(whole.last() == whole[whole.len() - 1]);
    assert forall|i: int|
        0 < i < whole.len() && whole[i - 1] == 0x2f implies #[trigger] whole[i] != 0x2f && !(
    whole[i] == 0x2e && (i + 1 == whole.len() || whole[i + 1] == 0x2f)) by {
        if i < base.len() {
            assert(base[i] != 0x2f);
            assert(base[i - 1] == 0x2f);
            if i + 1 < base.len() {
                assert(whole[i + 1] == base[i + 1]);
            }
        } else if i < start {
            assert(gap == 1);
            assert(base.last() == base[base.len() - 1]);
        } else if i > start {
            assert(whole[i - 1] != 0x2f);
        } else if whole[i] == 0x2e && (i + 1 == whole.len() || whole[i + 1] == 0x2f) {
            if i + 1 < whole.len() {
                assert(whole[i + 1] != 0x2f);
            }
            assert(word =~= seq![0x2eu8]);
        }
    }
}

/// A component other than the root is written as a word that is no `.` unless it stands first.
proof fn lemma_part_is_plain(part: Part, at: int)
    requires
        fits_at(part, at),
    ensures
        part is RootDir ==> is_plain(part_bytes(part)) && is_absolute(part_bytes(part)),
        !(part is RootDir) ==> part_bytes(part).len() > 0 && !part_bytes(part).contains(0x2f) && (at
            > 0 ==> part_bytes(part) != seq![0x2eu8]),
{
    assert(seq![0x2eu8] =~= dot());
    assert(dot().len() == 1 && dot_dot().len() == 2);
}

/// A path written from components has exactly these, and is written without anything that carries
/// no meaning.
pub proof fn law_rendered_is_plain(parts: Seq<Part>)
    requires
        is_component_list(parts),
    ensures
        components_of(rendered(parts)) == parts,
        is_plain(rendered(parts)),
    decreases parts.len(),
{
    lemma_rendered(parts);
    if parts.len() > 0 {
        let front = parts.drop_last();
        let last = parts.last();
        assert(fits_at(parts[parts.len() - 1], parts.len() - 1));
        assert(is_component_list(front)) by {
            assert forall|i: int| 0 <= i < front.len() implies fits_at(#[trigger] front[i], i) by {
                assert(fits_at(parts[i], i));
            }
        }
        law_rendered_is_plain(front);
        let base = rendered(front);
        let bytes = part_bytes(last);
        assert(rendered(parts) == joined(base, bytes));
        assert(base.len() == 0 <==> front.len() == 0) by {
            lemma_rendered(front);
        }
        lemma_part_is_plain(last, parts.len() - 1);
        if last is RootDir {
            assert(joined(base, bytes) == bytes);
        } else {
            lemma_joined_is_plain(base, bytes);
        }
    }
}

/// Trimming cuts off the end of a path.
proof fn lemma_trimmed_is_front(path: Seq<u8>)
    ensures
        trimmed(path).is_prefix_of(path),
        trimmed(path).len() > 1 ==> trimmed(path).last() != SLASH,
    decreases path.len(),
{
    if path.len() >= 2 && (path.last() == SLASH || (path.last() == DOT && path[path.len() - 2]
        == SLASH)) {
        let front = path.drop_last();
        lemma_trimmed_is_front(front);
        let out = trimmed(path);
        assert(out =~= path.subrange(0, out.len() as int)) by {
            assert(out =~= front.subrange(0, out.len() as int));
        }
    } else {
        assert(path =~= path.subrange(0, path.len() as int));
    }
}

/// The parent is the front of the path itself, cut off before the last component, with no separator
/// and no `.` left at its end but those that are all of it. Only the empty path and the root have
/// no parent.
pub proof fn law_parent_is_the_front(path: Seq<u8>)
    ensures
        parent_of(path) matches Some(up) ==> {
            &&& up.is_prefix_of(path)
            &&& up.len() > 1 ==> up.last() != 0x2f && !(up.last() == 0x2e && up[up.len() - 2]
                == 0x2f)
            &&& components_of(path).len() > 0
            &&& components_of(up) == components_of(path).drop_last()
        },
        parent_of(path) is None <==> components_of(path).len() == 0 || components_of(path) == seq![
            Part::RootDir,
        ],
{
    lemma_parent(path);
    if let Some(up) = parent_of(path) {
        let core = trimmed(path);
        let head = core.take(last_name_start(core));
        lemma_trimmed_is_front(path);
        lemma_trimmed_is_front(head);
        lemma_trimmed(head);
        lemma_last_name(core);
        assert(up =~= path.subrange(0, up.len() as int)) by {
            assert(up =~= head.subrange(0, up.len() as int));
            assert(core =~= path.subrange(0, core.len() as int));
        }
    }
}

/// Components that have the same normal form still have the same one with more behind them.
proof fn lemma_normal_form_extends(a: Seq<Part>, b: Seq<Part>, more: Seq<Part>)
    requires
        normal_form(a) == normal_form(b),
    ensures
        normal_form(a + more) == normal_form(b + more),
    decreases more.len(),
{
    if more.len() == 0 {
        assert(a + more =~= a);
        assert(b + more =~= b);
    } else {
        lemma_normal_form_extends(a, b, more.drop_last());
        assert((a + more).drop_last() =~= a + more.drop_last());
        assert((b + more).drop_last() =~= b + more.drop_last());
    }
}

/// A `..` behind a name takes away that one name and nothing else, wherever the two stand.
pub proof fn law_parent_dir_takes_one_name(before: Seq<Part>, name: Seq<u8>, after: Seq<Part>)
    ensures
        normal_form(before + seq![Part::Normal(name), Part::ParentDir] + after) == normal_form(
            before + after,
        ),
{
    let named = before.push(Part::Normal(name));
    let both = before + seq![Part::Normal(name), Part::ParentDir];
    assert(both.drop_last() =~= named);
    assert(named.drop_last() =~= before);
    assert(both.last() is ParentDir && named.last() == Part::Normal(name));
    match normal_form(before) {
        Some(front) => {
            let longer = front.push(Part::Normal(name));
            assert(normal_form(named) == Some(longer));
            assert(longer.last() == Part::Normal(name));
            assert(longer.drop_last() =~= front);
        },
        None => {
            assert(normal_form(named) is None);
        },
    }
    lemma_normal_form_extends(both, before, after);
}

/// A `.` means nothing, wherever it stands.
pub proof fn law_current_dir_means_nothing(before: Seq<Part>, after: Seq<Part>)
    ensures
        normal_form(before.push(Part::CurDir) + after) == normal_form(before + after),
{
    assert(before.push(Part::CurDir).drop_last() =~= before);
    lemma_normal_form_extends(before.push(Part::CurDir), before, after);
}

/// A `..` directly behind the root leaves no normal form, whatever follows.
pub proof fn law_nothing_is_above_the_root(before: Seq<Part>, after: Seq<Part>)
    requires
        normal_form(before) == Some(seq![Part::RootDir]),
    ensures
        normal_form(before.push(Part::ParentDir) + after) is None,
{
    let up = before.push(Part::ParentDir);
    assert(up.drop_last() =~= before);
    assert(seq![Part::RootDir].last() is RootDir);
    assert((up + after).take(up.len() as int) =~= up);
    lemma_no_normal_form(up + after, up.len() as int);
}

/// Components without `.` and with `..` only at the front are their own normal form; so are those
/// without any `.` or `..`.
pub proof fn law_normal_form_keeps_names(parts: Seq<Part>)
    requires
        forall|i: int| 0 <= i < parts.len() ==> !(#[trigger] parts[i] is CurDir),
        forall|i: int, j: int|
            0 <= j < i < parts.len() && #[trigger] parts[i] is ParentDir ==> #[trigger] parts[j]
                is ParentDir,
    ensures
        normal_form(parts) == Some(parts),
{
    lemma_normal_is_fixed(parts);
}

/// The normal form of a path is the path with the normal form of its components: there is one
/// exactly if these have one.
pub proof fn law_normalized_has_normal_components(path: Seq<u8>)
    ensures
        match normal_form(components_of(path)) {
            Some(form) => normalized(path) matches Some(out) && components_of(out) == form
                && is_plain(out),
            None => normalized(path) is None,
        },
{
    lemma_components_fit(path);
    lemma_normal_form(components_of(path));
    if let Some(form) = normal_form(components_of(path)) {
        law_rendered_is_plain(form);
    }
}

/// Normal forms of relative components: there always is one, and putting it behind other components
/// is as good as putting the components themselves there.
pub proof fn lemma_relative_normal_form(before: Seq<Part>, parts: Seq<Part>)
    requires
        forall|i: int| 0 <= i < parts.len() ==> !(#[trigger] parts[i] is RootDir),
    ensures
        normal_form(parts) matches Some(form) && normal_form(before + form) == normal_form(
            before + parts,
        ) && forall|i: int| 0 <= i < form.len() ==> !(#[trigger] form[i] is RootDir),
    decreases parts.len(),
{
    if parts.len() == 0 {
        assert(parts =~= Seq::empty());
    } else {
        let front = parts.drop_last();
        let last = parts.last();
        assert(parts[parts.len() - 1] == last);
        assert forall|i: int| 0 <= i < front.len() implies !(#[trigger] front[i] is RootDir) by {
            assert(parts[i] == front[i]);
        }
        lemma_relative_normal_form(before, front);
        let form = normal_form(front).unwrap();
        lemma_normal_form_extends(before + form, before + front, seq![last]);
        assert((before + front) + seq![last] =~= before + parts);
        assert((before + form) + seq![last] =~= before + form.push(last));
        match last {
            Part::CurDir => {
                assert((before + form.push(last)).drop_last() =~= before + form);
            },
            Part::ParentDir => {
                if form.len() > 0 && !(form.last() is ParentDir) {
                    assert(!(form[form.len() - 1] is RootDir));
                    let kept = form.drop_last();
                    assert((before + form).drop_last() =~= before + kept);
                    assert((before + form.push(last)).drop_last() =~= before + form);
                    assert(before + form =~= (before + kept).push(form.last()));
                    if form.last() is Normal {
                        if let Part::Normal(name) = form.last() {
                            law_parent_dir_takes_one_name(before + kept, name, Seq::empty());
                            assert(before + kept + seq![Part::Normal(name), Part::ParentDir]
                                + Seq::<Part>::empty() =~= before + form.push(last));
                            assert(before + kept + Seq::<Part>::empty() =~= before + kept);
                        }
                    } else {
                        lemma_form_has_no_dot(front);
                        assert(false);
                    }
                }
            },
            _ => {},
        }
    }
}

/// A normal form holds no `.`.
proof fn lemma_form_has_no_dot(parts: Seq<Part>)
    ensures
        normal_form(parts) matches Some(form) ==> forall|i: int|
            0 <= i < form.len() ==> !(#[trigger] form[i] is CurDir),
    decreases parts.len(),
{
    if parts.len() > 0 {
        lemma_form_has_no_dot(parts.drop_last());
    }
}

/// What contracts say of a component is the component, and of a list of them each one in its place.
pub proof fn law_component_view_is_faithful(component: Component, list: Seq<Component>)
    ensures
        match component {
            Component::RootDir => component@ is RootDir,
            Component::CurDir => component@ is CurDir,
            Component::ParentDir => component@ is ParentDir,
            Component::Normal(name) => component@ == Part::Normal(name@),
        },
        parts_of(list).len() == list.len(),
        forall|i: int| 0 <= i < list.len() ==> #[trigger] parts_of(list)[i] == list[i]@,
{
}

/// A path is absolute exactly if it opens with a separator.
pub proof fn law_absolute_opens_with_separator(path: Seq<u8>)
    ensures
        is_absolute(path) <==> path.len() > 0 && path[0] == 0x2f,
        is_absolute(path) <==> components_of(path).len() > 0 && components_of(path)[0] is RootDir,
{
    lemma_rooted(path);
}

/// Whether two components are the same.
pub fn same_component(a: &Component, b: &Component) -> (same: bool)
    ensures
        same == (a@ == b@),
{
    match (a, b) {
        (Component::RootDir, Component::RootDir) => true,
        (Component::CurDir, Component::CurDir) => true,
        (Component::ParentDir, Component::ParentDir) => true,
        (Component::Normal(x), Component::Normal(y)) => same_bytes(x.as_slice(), y.as_slice()),
        _ => false,
    }
}

/// Adds what `name` means to a list of components.
fn push_name(out: &mut Vec<Component>, name: &[u8])
    ensures
        parts_of(final(out)@) == parts_of(old(out)@) + name_part(name@),
{
    let ghost before = out@;
    if name.len() == 0 || (name.len() == 1 && name[0] == DOT) {
        assert(name@.len() == 1 ==> name@ =~= dot());
        assert(parts_of(out@) =~= parts_of(before) + name_part(name@));
    } else if name.len() == 2 && name[0] == DOT && name[1] == DOT {
        assert(name@ =~= dot_dot());
        out.push(Component::ParentDir);
        assert(parts_of(out@) =~= parts_of(before) + name_part(name@));
    } else {
        assert(name@ != dot());
        assert(name@ != dot_dot());
        out.push(Component::Normal(slice_to_vec(name)));
        assert(parts_of(out@) =~= parts_of(before) + name_part(name@));
    }
}

/// The components of a path.
pub fn components(path: &[u8]) -> (out: Vec<Component>)
    ensures
        parts_of(out@) == components_of(path@),
{
    let mut out: Vec<Component> = Vec::new();
    if path.len() > 0 && path[0] == SLASH {
        out.push(Component::RootDir);
    } else if path.len() > 0 && path[0] == DOT && (path.len() == 1 || path[1] == SLASH) {
        out.push(Component::CurDir);
    }
    assert(parts_of(out@) =~= lead(path@));
    let mut start: usize = 0;
    let mut i: usize = 0;
    proof {
        assert(path@.take(0) =~= Seq::empty());
        assert(split(path@.take(0)) == seq![Seq::<u8>::empty()]);
        assert(split(path@.take(0)).drop_last() =~= Seq::empty());
        assert(path@.subrange(0, 0) =~= Seq::empty());
        assert(names(split(path@.take(0)).drop_last()) =~= Seq::empty());
        assert(lead(path@) + Seq::<Part>::empty() =~= lead(path@));
    }
    while i < path.len()
        invariant
            start <= i <= path@.len(),
            split(path@.take(i as int)).len() > 0,
            split(path@.take(i as int)).last() == path@.subrange(start as int, i as int),
            parts_of(out@) == lead(path@) + names(split(path@.take(i as int)).drop_last()),
        decreases path@.len() - i,
    {
        let ghost front = split(path@.take(i as int));
        let ghost longer = split(path@.take(i + 1));
        assert(path@.take(i + 1).drop_last() =~= path@.take(i as int));
        if path[i] == SLASH {
            push_name(&mut out, slice_subrange(path, start, i));
            proof {
                assert(longer == front.push(Seq::empty()));
                assert(longer.drop_last() =~= front.drop_last() + seq![front.last()]);
                lemma_names_add(front.drop_last(), seq![front.last()]);
                lemma_names_one(front.last());
                assert(parts_of(out@) =~= lead(path@) + names(longer.drop_last()));
                assert(path@.subrange(i + 1, i + 1) =~= Seq::empty());
            }
            start = i + 1;
        } else {
            proof {
                assert(longer.drop_last() =~= front.drop_last());
                assert(path@.subrange(start as int, i + 1) =~= path@.subrange(
                    start as int,
                    i as int,
                ).push(path@[i as int]));
            }
        }
        i += 1;
    }
    assert(path@.take(i as int) =~= path@);
    push_name(&mut out, slice_subrange(path, start, i));
    proof {
        let all = split(path@);
        assert(all =~= all.drop_last() + seq![all.last()]);
        lemma_names_add(all.drop_last(), seq![all.last()]);
        lemma_names_one(all.last());
        assert(parts_of(out@) =~= components_of(path@));
    }
    out
}

/// Whether a path starts at the root.
pub fn has_root(path: &[u8]) -> (root: bool)
    ensures
        root == is_absolute(path@),
{
    path.len() > 0 && path[0] == SLASH
}

/// Whether `path` lies at or below `base`.
pub fn starts_with(path: &[u8], base: &[u8]) -> (does: bool)
    ensures
        does == inside(path@, base@),
{
    let all = components(path);
    let first = components(base);
    if first.len() > all.len() {
        return false;
    }
    let mut i: usize = 0;
    while i < first.len()
        invariant
            i <= first@.len() <= all@.len(),
            parts_of(all@) == components_of(path@),
            parts_of(first@) == components_of(base@),
            forall|j: int| 0 <= j < i ==> parts_of(first@)[j] == parts_of(all@)[j],
        decreases first@.len() - i,
    {
        if !same_component(&first[i], &all[i]) {
            assert(parts_of(first@)[i as int] != parts_of(all@)[i as int]);
            assert(components_of(path@).take(first@.len() as int)[i as int] != components_of(
                base@,
            )[i as int]);
            return false;
        }
        assert(parts_of(first@)[i as int] == parts_of(all@)[i as int]);
        i += 1;
    }
    assert(components_of(base@) =~= components_of(path@).take(first@.len() as int));
    true
}

/// `path` seen from `base`.
pub fn join(base: &[u8], path: &[u8]) -> (out: Vec<u8>)
    ensures
        out@ == joined(base@, path@),
{
    if has_root(path) {
        return slice_to_vec(path);
    }
    let mut out = slice_to_vec(base);
    if base.len() > 0 && base[base.len() - 1] != SLASH {
        out.push(SLASH);
    }
    extend_bytes(&mut out, path);
    out
}

/// How many bytes of a path remain once it is trimmed.
fn trimmed_len(path: &[u8]) -> (len: usize)
    ensures
        len <= path@.len(),
        path@.take(len as int) == trimmed(path@),
{
    let mut len: usize = path.len();
    assert(path@.take(len as int) =~= path@);
    while len >= 2 && (path[len - 1] == SLASH || (path[len - 1] == DOT && path[len - 2] == SLASH))
        invariant
            len <= path@.len(),
            trimmed(path@.take(len as int)) == trimmed(path@),
        decreases len,
    {
        assert(path@.take(len as int).drop_last() =~= path@.take(len - 1));
        len -= 1;
    }
    len
}

/// The path without its last component, if it has one other than the root.
pub fn parent(path: &[u8]) -> (up: Option<Vec<u8>>)
    ensures
        match up {
            Some(bytes) => parent_of(path@) == Some(bytes@),
            None => parent_of(path@) is None,
        },
{
    let len = trimmed_len(path);
    if len == 0 || path[len - 1] == SLASH {
        return None;
    }
    let core = slice_subrange(path, 0, len);
    assert(core@ =~= trimmed(path@));
    let mut start: usize = core.len();
    assert(core@.take(start as int) =~= core@);
    while start > 0 && core[start - 1] != SLASH
        invariant
            start <= core@.len(),
            last_name_start(core@.take(start as int)) == last_name_start(core@),
        decreases start,
    {
        assert(core@.take(start as int).drop_last() =~= core@.take(start - 1));
        start -= 1;
    }
    let head = slice_subrange(core, 0, start);
    assert(head@ =~= core@.take(start as int));
    let head_len = trimmed_len(head);
    let up = slice_subrange(head, 0, head_len);
    assert(up@ =~= head@.take(head_len as int));
    Some(slice_to_vec(up))
}

/// Writes a path from its components.
pub fn render(list: &Vec<Component>) -> (out: Vec<u8>)
    ensures
        out@ == rendered(parts_of(list@)),
{
    let mut out: Vec<u8> = Vec::new();
    let mut i: usize = 0;
    assert(parts_of(list@).take(0) =~= Seq::empty());
    assert(out@ =~= Seq::empty());
    while i < list.len()
        invariant
            i <= list@.len(),
            out@ == rendered(parts_of(list@).take(i as int)),
        decreases list@.len() - i,
    {
        let ghost longer = parts_of(list@).take(i + 1);
        assert(longer.drop_last() =~= parts_of(list@).take(i as int));
        assert(longer.last() == list@[i as int]@);
        match &list[i] {
            Component::RootDir => {
                let bytes: [u8; 1] = [SLASH];
                assert(bytes@ =~= part_bytes(Part::RootDir));
                out = join(out.as_slice(), bytes.as_slice());
            },
            Component::CurDir => {
                let bytes: [u8; 1] = [DOT];
                assert(bytes@ =~= part_bytes(Part::CurDir));
                out = join(out.as_slice(), bytes.as_slice());
            },
            Component::ParentDir => {
                let bytes: [u8; 2] = [DOT, DOT];
                assert(bytes@ =~= part_bytes(Part::ParentDir));
                out = join(out.as_slice(), bytes.as_slice());
            },
            Component::Normal(name) => {
                out = join(out.as_slice(), name.as_slice());
            },
        }
        i += 1;
    }
    assert(parts_of(list@).take(i as int) =~= parts_of(list@));
    out
}

/// The path with each `..` taken together with the name before it and without `.`, as in
/// `a/b/../c`, which gives `a/c`. A `..` that opens a relative path stays. There is no result if
/// a `..` leads above the root.
pub fn normalize(path: &[u8]) -> (out: Option<Vec<u8>>)
    ensures
        match out {
            Some(bytes) => normalized(path@) == Some(bytes@),
            None => normalized(path@) is None,
        },
{
    let list = components(path);
    let ghost all = components_of(path@);
    let mut stack: Vec<Component> = Vec::new();
    let mut i: usize = 0;
    assert(all.take(0) =~= Seq::empty());
    assert(parts_of(stack@) =~= Seq::empty());
    while i < list.len()
        invariant
            i <= list@.len(),
            parts_of(list@) == all,
            normal_form(all.take(i as int)) == Some(parts_of(stack@)),
            all == components_of(path@),
        decreases list@.len() - i,
    {
        let ghost before = stack@;
        let ghost longer = all.take(i + 1);
        assert(longer.drop_last() =~= all.take(i as int));
        assert(longer.last() == list@[i as int]@);
        match &list[i] {
            Component::RootDir => {
                stack.push(Component::RootDir);
                assert(parts_of(stack@) =~= parts_of(before).push(Part::RootDir));
            },
            Component::CurDir => {},
            Component::ParentDir => {
                let depth = stack.len();
                let up: bool = if depth == 0 {
                    true
                } else {
                    match &stack[depth - 1] {
                        Component::ParentDir => true,
                        Component::RootDir => {
                            assert(parts_of(before).last() is RootDir);
                            proof {
                                lemma_no_normal_form(all, i + 1);
                            }
                            return None;
                        },
                        _ => false,
                    }
                };
                if depth > 0 {
                    assert(parts_of(before).last() == before[depth - 1]@);
                }
                if up {
                    stack.push(Component::ParentDir);
                    assert(parts_of(stack@) =~= parts_of(before).push(Part::ParentDir));
                } else {
                    stack.pop();
                    assert(parts_of(stack@) =~= parts_of(before).drop_last());
                }
            },
            Component::Normal(name) => {
                stack.push(Component::Normal(slice_to_vec(name.as_slice())));
                assert(parts_of(stack@) =~= parts_of(before).push(Part::Normal(name@)));
            },
        }
        i += 1;
    }
    assert(all.take(i as int) =~= all);
    Some(render(&stack))
}

/// Components that open with a list without a normal form have none either.
proof fn lemma_no_normal_form(parts: Seq<Part>, upto: int)
    requires
        0 <= upto <= parts.len(),
        normal_form(parts.take(upto)) is None,
    ensures
        normal_form(parts) is None,
    decreases parts.len(),
{
    if upto == parts.len() {
        assert(parts.take(upto) =~= parts);
    } else {
        assert(parts.drop_last().take(upto) =~= parts.take(upto));
        lemma_no_normal_form(parts.drop_last(), upto);
    }
}

} // verus!
