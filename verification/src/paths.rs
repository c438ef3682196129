//! Unix path semantics on byte strings.
//!
//! A path is taken apart into components, each modelled by a rank byte and, for
//! a name, the name's bytes. Repeated slashes, trailing slashes and inner `.`
//! have no component, so two paths are the same path exactly when their
//! components are equal, and paths are ordered by their components.
use crate::bytes;
use crate::order;
use crate::order::Rank;
use vstd::prelude::*;

verus! {

pub const SLASH: u8 = 47;

pub const DOT: u8 = 46;

pub open spec fn root_component() -> Seq<u8> {
    seq![1u8]
}

pub open spec fn current_component() -> Seq<u8> {
    seq![2u8]
}

pub open spec fn parent_component() -> Seq<u8> {
    seq![3u8]
}

pub open spec fn name_component(name: Seq<u8>) -> Seq<u8> {
    seq![4u8] + name
}

pub open spec fn is_absolute(path: Seq<u8>) -> bool {
    path.len() > 0 && path[0] == SLASH
}

/// The component that the text between two slashes stands for.
pub open spec fn piece_component(piece: Seq<u8>, first: bool) -> Option<Seq<u8>> {
    if piece.len() == 0 {
        None
    } else if piece == seq![DOT] {
        if first {
            Some(current_component())
        } else {
            None
        }
    } else if piece == seq![DOT, DOT] {
        Some(parent_component())
    } else {
        Some(name_component(piece))
    }
}

pub open spec fn piece_components(pieces: Seq<Seq<u8>>) -> Seq<Seq<u8>>
    decreases pieces.len(),
{
    if pieces.len() == 0 {
        Seq::empty()
    } else {
        let rest = piece_components(pieces.drop_last());
        match piece_component(pieces.last(), pieces.len() == 1) {
            Some(component) => rest.push(component),
            None => rest,
        }
    }
}

pub open spec fn components(path: Seq<u8>) -> Seq<Seq<u8>> {
    let names = piece_components(bytes::split(path, SLASH));
    if is_absolute(path) {
        seq![root_component()] + names
    } else {
        names
    }
}

/// A relative path that stays below the directory it is taken from.
pub open spec fn is_safe_relative(path: Seq<u8>) -> bool {
    &&& path.len() > 0
    &&& !is_absolute(path)
    &&& !components(path).contains(parent_component())
}

/// `relative` taken from the directory `base`.
pub open spec fn joined(base: Seq<u8>, relative: Seq<u8>) -> Seq<u8> {
    if is_absolute(relative) {
        relative
    } else if base.len() == 0 || base.last() == SLASH {
        base + relative
    } else {
        base.push(SLASH) + relative
    }
}

/// The text of a component within a path.
pub open spec fn component_text(component: Seq<u8>) -> Seq<u8> {
    if component == current_component() {
        seq![DOT]
    } else if component == parent_component() {
        seq![DOT, DOT]
    } else {
        component.skip(1)
    }
}

pub open spec fn component_texts(parts: Seq<Seq<u8>>) -> Seq<Seq<u8>> {
    Seq::new(parts.len(), |i: int| component_text(parts[i]))
}

/// The shortest text of the relative path with these components.
pub open spec fn relative_text(parts: Seq<Seq<u8>>) -> Seq<u8> {
    bytes::join(component_texts(parts), SLASH)
}

/// Components that a relative path can have.
pub open spec fn relative_components(parts: Seq<Seq<u8>>) -> bool {
    forall|i: int|
        0 <= i < parts.len() ==> {
            ||| i == 0 && #[trigger] parts[i] == current_component()
            ||| parts[i] == parent_component()
            ||| is_name(parts[i])
        }
}

pub open spec fn is_name(part: Seq<u8>) -> bool {
    &&& part.len() > 1
    &&& part[0] == 4
    &&& !part.skip(1).contains(SLASH)
    &&& part.skip(1) != seq![DOT]
    &&& part.skip(1) != seq![DOT, DOT]
}

proof fn lemma_piece_components(pieces: Seq<Seq<u8>>)
    requires
        forall|i: int| 0 <= i < pieces.len() ==> !(#[trigger] pieces[i]).contains(SLASH),
    ensures
        relative_components(piece_components(pieces)),
    decreases pieces.len(),
{
    if pieces.len() > 0 {
        let init = pieces.drop_last();
        assert forall|i: int| 0 <= i < init.len() implies !(#[trigger] init[i]).contains(SLASH) by {
            assert(init[i] == pieces[i]);
        }
        lemma_piece_components(init);
        let rest = piece_components(init);
        let piece = pieces[pieces.len() - 1];
        assert(!piece.contains(SLASH));
        let all = piece_components(pieces);
        assert forall|i: int| 0 <= i < all.len() implies {
            ||| i == 0 && #[trigger] all[i] == current_component()
            ||| all[i] == parent_component()
            ||| is_name(all[i])
        } by {
            if i < rest.len() {
                assert(all[i] == rest[i]);
            } else {
                assert(name_component(piece).skip(1) =~= piece);
                if pieces.len() == 1 {
                    assert(init.len() == 0);
                    assert(rest.len() == 0);
                }
            }
        }
    }
}

/// The components of a relative path are a possible current directory at the
/// front, parents, and names.
pub proof fn components_of_relative(path: Seq<u8>)
    requires
        !is_absolute(path),
    ensures
        relative_components(components(path)),
{
    bytes::split_then_join(path, SLASH);
    lemma_piece_components(bytes::split(path, SLASH));
}

proof fn lemma_join_then_split(parts: Seq<Seq<u8>>)
    requires
        parts.len() > 0,
        forall|i: int| 0 <= i < parts.len() ==> !(#[trigger] parts[i]).contains(SLASH),
    ensures
        bytes::split(bytes::join(parts, SLASH), SLASH) == parts,
    decreases parts.len(),
{
    let last = parts[parts.len() - 1];
    assert(!last.contains(SLASH));
    if parts.len() == 1 {
        bytes::lemma_split_extend(Seq::empty(), last, SLASH);
        assert(Seq::<u8>::empty() + last =~= last);
        assert(bytes::split(last, SLASH) =~= parts);
    } else {
        let init = parts.drop_last();
        assert forall|i: int| 0 <= i < init.len() implies !(#[trigger] init[i]).contains(SLASH) by {
            assert(init[i] == parts[i]);
        }
        lemma_join_then_split(init);
        let before = bytes::join(init, SLASH);
        assert(before.push(SLASH).drop_last() =~= before);
        assert(bytes::split(before.push(SLASH), SLASH) =~= init.push(Seq::empty()));
        bytes::lemma_split_extend(before.push(SLASH), last, SLASH);
        assert(Seq::<u8>::empty() + last =~= last);
        assert(bytes::split(bytes::join(parts, SLASH), SLASH) =~= parts);
    }
}

proof fn lemma_pieces_of_texts(parts: Seq<Seq<u8>>)
    requires
        relative_components(parts),
    ensures
        piece_components(component_texts(parts)) == parts,
    decreases parts.len(),
{
    let texts = component_texts(parts);
    if parts.len() == 0 {
        assert(piece_components(texts) =~= parts);
    } else {
        let init = parts.drop_last();
        assert forall|i: int| 0 <= i < init.len() implies {
            ||| i == 0 && #[trigger] init[i] == current_component()
            ||| init[i] == parent_component()
            ||| is_name(init[i])
        } by {
            assert(init[i] == parts[i]);
        }
        lemma_pieces_of_texts(init);
        assert(texts.drop_last() =~= component_texts(init));
        let last = parts[parts.len() - 1];
        assert(texts.last() == component_text(last));
        assert(parent_component()[0] == 3 && current_component()[0] == 2);
        if last == current_component() {
            assert(parts.len() == 1);
            assert(component_text(last) =~= seq![DOT]);
        } else if is_name(last) {
            assert(last != current_component());
            assert(name_component(last.skip(1)) =~= last);
        } else if last == parent_component() {
            assert(seq![DOT, DOT] != seq![DOT]) by {
                assert(seq![DOT, DOT].len() == 2);
            }
        }
        assert(piece_components(texts) =~= parts);
    }
}

/// The text of a list of components has those components.
pub proof fn text_keeps_components(parts: Seq<Seq<u8>>)
    requires
        relative_components(parts),
    ensures
        components(relative_text(parts)) == parts,
{
    let texts = component_texts(parts);
    let text = relative_text(parts);
    if parts.len() == 0 {
        assert(text =~= Seq::<u8>::empty());
        assert(bytes::split(text, SLASH) =~= seq![Seq::<u8>::empty()]);
        let one = seq![Seq::<u8>::empty()];
        assert(one.drop_last() =~= Seq::<Seq<u8>>::empty());
        assert(piece_components(one.drop_last()) =~= Seq::<Seq<u8>>::empty());
        assert(piece_components(one) =~= Seq::<Seq<u8>>::empty());
        assert(components(text) =~= parts);
    } else {
        assert forall|i: int| 0 <= i < texts.len() implies !(#[trigger] texts[i]).contains(SLASH) by {
            assert(parts[i] == parts[i]);
        }
        lemma_join_then_split(texts);
        lemma_pieces_of_texts(parts);
        if is_absolute(text) {
            // An absolute text has an empty first piece, and no component is empty.
            lemma_absolute_split(text);
            assert(texts[0].len() == 0);
            assert(parts[0] == parts[0]);
        }
    }
}

proof fn lemma_absolute_split(text: Seq<u8>)
    requires
        is_absolute(text),
    ensures
        bytes::split(text, SLASH)[0].len() == 0,
    decreases text.len(),
{
    if text.len() == 1 {
        assert(text.drop_last() =~= Seq::<u8>::empty());
        assert(bytes::split(text.drop_last(), SLASH) =~= seq![Seq::<u8>::empty()]);
        assert(text.last() == text[0]);
    } else {
        lemma_absolute_split(text.drop_last());
        bytes::lemma_split_len(text.drop_last(), SLASH);
        let parts = bytes::split(text.drop_last(), SLASH);
        if parts.len() == 1 {
            bytes::split_then_join(text.drop_last(), SLASH);
            assert(parts[0].len() == text.drop_last().len());
        }
    }
}

/// The component that a piece stands for.
fn component_of(piece: &Vec<u8>, first: bool) -> (component: Option<Vec<u8>>)
    ensures
        component is Some <==> piece_component(piece@, first) is Some,
        component matches Some(c) ==> Some(c@) == piece_component(piece@, first),
{
    if piece.len() == 0 {
        return None;
    }
    if piece.len() == 1 && piece[0] == DOT {
        assert(piece@ =~= seq![DOT]);
        if first {
            let mut component: Vec<u8> = Vec::new();
            component.push(2);
            assert(component@ =~= current_component());
            return Some(component);
        }
        return None;
    }
    if piece.len() == 2 && piece[0] == DOT && piece[1] == DOT {
        assert(piece@ =~= seq![DOT, DOT]);
        let mut component: Vec<u8> = Vec::new();
        component.push(3);
        assert(component@ =~= parent_component());
        return Some(component);
    }
    let mut component: Vec<u8> = Vec::new();
    component.push(4);
    bytes::append(&mut component, piece.as_slice());
    assert(component@ =~= name_component(piece@));
    Some(component)
}

/// The components of `path`.
pub fn split_path(path: &[u8]) -> (parts: Vec<Vec<u8>>)
    ensures
        bytes::views(parts@) == components(path@),
{
    let pieces = bytes::parts(path, SLASH);
    let ghost texts = bytes::views(pieces@);
    let mut parts: Vec<Vec<u8>> = Vec::new();
    let ghost start: Seq<Seq<u8>> = if is_absolute(path@) {
        seq![root_component()]
    } else {
        Seq::empty()
    };
    if path.len() > 0 && path[0] == SLASH {
        let mut root: Vec<u8> = Vec::new();
        root.push(1);
        assert(root@ =~= root_component());
        parts.push(root);
    }
    assert(bytes::views(parts@) =~= start);
    assert(texts.take(0) =~= Seq::<Seq<u8>>::empty());
    assert(bytes::views(parts@) =~= start + piece_components(texts.take(0)));
    for i in 0..pieces.len()
        invariant
            texts == bytes::views(pieces@),
            bytes::views(parts@) == start + piece_components(texts.take(i as int)),
    {
        assert(texts.take(i + 1).drop_last() =~= texts.take(i as int));
        assert(texts.take(i + 1).last() == pieces@[i as int]@);
        let ghost before = bytes::views(parts@);
        if let Some(component) = component_of(&pieces[i], i == 0) {
            let ghost c = component@;
            parts.push(component);
            assert(bytes::views(parts@) =~= before.push(c));
            assert(before.push(c) =~= start + piece_components(texts.take(i + 1)));
        }
    }
    assert(texts.take(texts.len() as int) =~= texts);
    assert(start + piece_components(texts) =~= components(path@));
    parts
}

/// Whether two texts name the same path.
pub fn same(left: &[u8], right: &[u8]) -> (yes: bool)
    ensures
        yes == (components(left@) == components(right@)),
{
    let a = split_path(left);
    let b = split_path(right);
    order::key_rank(&a, &b) == Rank::Same
}

/// Whether `path` lies in the directory `base` or is it.
pub fn lies_in(path: &[u8], base: &[u8]) -> (yes: bool)
    ensures
        yes == bytes::has_prefix(components(path@), components(base@)),
{
    let parts = split_path(path);
    let prefix = split_path(base);
    if parts.len() < prefix.len() {
        return false;
    }
    for i in 0..prefix.len()
        invariant
            prefix@.len() <= parts@.len(),
            bytes::views(parts@) == components(path@),
            bytes::views(prefix@) == components(base@),
            forall|j: int| 0 <= j < i ==> parts@[j]@ == prefix@[j]@,
    {
        if !bytes::equal(parts[i].as_slice(), prefix[i].as_slice()) {
            assert(components(path@).take(prefix@.len() as int)[i as int] != components(base@)[i as int]);
            return false;
        }
    }
    assert(components(path@).take(prefix@.len() as int) =~= components(base@));
    true
}

/// `relative` taken from `base`.
pub fn join(base: &[u8], relative: &[u8]) -> (path: Vec<u8>)
    ensures
        path@ == joined(base@, relative@),
{
    if relative.len() > 0 && relative[0] == SLASH {
        return bytes::copy(relative);
    }
    let mut path = bytes::copy(base);
    if base.len() > 0 && base[base.len() - 1] != SLASH {
        path.push(SLASH);
    }
    bytes::append(&mut path, relative);
    path
}

/// The text of a component within a path.
pub fn text_of_component(component: &Vec<u8>) -> (text: Vec<u8>)
    requires
        component@.len() > 0,
    ensures
        text@ == component_text(component@),
{
    if component.len() == 1 && component[0] == 2 {
        assert(component@ =~= current_component());
        let mut text: Vec<u8> = Vec::new();
        text.push(DOT);
        assert(text@ =~= seq![DOT]);
        text
    } else if component.len() == 1 && component[0] == 3 {
        assert(component@ =~= parent_component());
        let mut text: Vec<u8> = Vec::new();
        text.push(DOT);
        text.push(DOT);
        assert(text@ =~= seq![DOT, DOT]);
        text
    } else {
        let text = bytes::slice(component.as_slice(), 1, component.len());
        assert(text@ =~= component@.skip(1));
        text
    }
}

/// The text of the relative path with the first `count` of these components.
pub fn prefix_text(parts: &Vec<Vec<u8>>, count: usize) -> (text: Vec<u8>)
    requires
        count <= parts@.len(),
        relative_components(bytes::views(parts@)),
    ensures
        text@ == relative_text(bytes::views(parts@).take(count as int)),
        components(text@) == bytes::views(parts@).take(count as int),
{
    let ghost all = bytes::views(parts@);
    let mut text: Vec<u8> = Vec::new();
    assert(text@ =~= relative_text(all.take(0)));
    for i in 0..count
        invariant
            all == bytes::views(parts@),
            relative_components(all),
            count <= parts@.len(),
            text@ == relative_text(all.take(i as int)),
    {
        assert(all[i as int] == parts@[i as int]@);
        assert(component_texts(all.take(i + 1)).drop_last() =~= component_texts(all.take(i as int)));
        if i > 0 {
            text.push(SLASH);
        }
        let piece = text_of_component(&parts[i]);
        bytes::append(&mut text, piece.as_slice());
        assert(component_texts(all.take(i + 1)).last() == piece@);
        assert(text@ =~= relative_text(all.take(i + 1)));
    }
    proof {
        let taken = all.take(count as int);
        assert forall|i: int| 0 <= i < taken.len() implies {
            ||| i == 0 && #[trigger] taken[i] == current_component()
            ||| taken[i] == parent_component()
            ||| is_name(taken[i])
        } by {
            assert(taken[i] == all[i]);
        }
        text_keeps_components(taken);
    }
    text
}

/// The name that a path ends in.
pub open spec fn last_name(path: Seq<u8>) -> Option<Seq<u8>> {
    let parts = components(path);
    if parts.len() > 0 && parts.last().len() > 0 && parts.last()[0] == 4 {
        Some(parts.last().skip(1))
    } else {
        None
    }
}

/// The name that a path ends in, where it ends in one.
pub fn file_name(path: &[u8]) -> (name: Option<Vec<u8>>)
    ensures
        name is Some <==> last_name(path@) is Some,
        name matches Some(n) ==> last_name(path@) == Some(n@),
{
    let parts = split_path(path);
    if parts.len() == 0 {
        return None;
    }
    let last = &parts[parts.len() - 1];
    assert(components(path@).last() == last@);
    if last.len() > 0 && last[0] == 4 {
        let name = bytes::slice(last.as_slice(), 1, last.len());
        assert(name@ =~= last@.skip(1));
        Some(name)
    } else {
        None
    }
}

/// The components of the directory that holds a relative path.
pub open spec fn parent_components(path: Seq<u8>) -> Seq<Seq<u8>> {
    let parts = components(path);
    if parts.len() == 0 {
        parts
    } else {
        parts.drop_last()
    }
}

/// The directory that holds a relative path, from where the path is taken.
pub fn parent(path: &[u8]) -> (directory: Vec<u8>)
    requires
        !is_absolute(path@),
    ensures
        directory@ == relative_text(parent_components(path@)),
        components(directory@) == parent_components(path@),
{
    proof {
        components_of_relative(path@);
    }
    let parts = split_path(path);
    let count: usize = if parts.len() == 0 {
        0
    } else {
        parts.len() - 1
    };
    assert(components(path@).take(count as int) =~= parent_components(path@));
    prefix_text(&parts, count)
}

/// What comes behind a slash adds its component to those of a path: nothing for
/// an empty text or a dot, a parent for two dots, and otherwise its name.
pub proof fn components_follow_one_another(path: Seq<u8>, piece: Seq<u8>)
    requires
        path.len() > 0,
        !piece.contains(47u8),
    ensures
        ({
            let before = components(path);
            components(path + seq![47u8] + piece) == (if piece.len() == 0 || piece == seq![46u8] {
                before
            } else if piece == seq![46u8, 46u8] {
                before.push(seq![3u8])
            } else {
                before.push(seq![4u8] + piece)
            })
        }),
{
    let whole = path + seq![47u8] + piece;
    let open = path.push(47u8);
    assert(whole =~= open + piece);
    assert(open.drop_last() =~= path);
    bytes::lemma_split_len(path, 47u8);
    bytes::lemma_split_extend(open, piece, 47u8);
    assert(bytes::split(open, 47u8) =~= bytes::split(path, 47u8).push(Seq::empty()));
    assert(Seq::<u8>::empty() + piece =~= piece);
    let pieces = bytes::split(whole, 47u8);
    assert(pieces =~= bytes::split(path, 47u8).push(piece));
    assert(pieces.drop_last() =~= bytes::split(path, 47u8));
    assert(whole[0] == path[0]);
    assert(components(whole) =~= (if piece.len() == 0 || piece == seq![46u8] {
        components(path)
    } else if piece == seq![46u8, 46u8] {
        components(path).push(seq![3u8])
    } else {
        components(path).push(seq![4u8] + piece)
    })) by {
        assert(seq![46u8, 46u8].len() == 2);
        assert(seq![46u8].len() == 1);
    }
}

/// A path without a slash has one component, and none where it is empty; a
/// slash at the front is the root.
pub proof fn components_begin(piece: Seq<u8>)
    requires
        !piece.contains(47u8),
    ensures
        components(piece) == (if piece.len() == 0 {
            Seq::<Seq<u8>>::empty()
        } else if piece == seq![46u8] {
            seq![seq![2u8]]
        } else if piece == seq![46u8, 46u8] {
            seq![seq![3u8]]
        } else {
            seq![seq![4u8] + piece]
        }),
        components(seq![47u8]) == seq![seq![1u8]],
{
    bytes::lemma_split_extend(Seq::<u8>::empty(), piece, 47u8);
    assert(Seq::<u8>::empty() + piece =~= piece);
    assert(bytes::split(piece, 47u8) =~= seq![piece]);
    assert(seq![piece].drop_last() =~= Seq::<Seq<u8>>::empty());
    assert(seq![46u8, 46u8].len() == 2 && seq![46u8].len() == 1);
    if piece.len() > 0 {
        assert(piece.contains(piece[0]));
    }
    let one = seq![piece];
    let none = piece_components(one.drop_last());
    assert(none =~= Seq::<Seq<u8>>::empty());
    assert(one.last() == piece);
    assert(piece_components(one) == (match piece_component(piece, true) {
        Some(component) => none.push(component),
        None => none,
    }));
    assert(!is_absolute(piece));
    assert(components(piece) =~= (if piece.len() == 0 {
        Seq::<Seq<u8>>::empty()
    } else if piece == seq![46u8] {
        seq![seq![2u8]]
    } else if piece == seq![46u8, 46u8] {
        seq![seq![3u8]]
    } else {
        seq![seq![4u8] + piece]
    }));
    let root = seq![47u8];
    assert(root.drop_last() =~= Seq::<u8>::empty());
    let two = bytes::split(root, 47u8);
    assert(two =~= seq![Seq::<u8>::empty(), Seq::<u8>::empty()]);
    assert(two.drop_last() =~= seq![Seq::<u8>::empty()]);
    assert(two.drop_last().drop_last() =~= Seq::<Seq<u8>>::empty());
    assert(piece_components(two.drop_last()) =~= Seq::<Seq<u8>>::empty());
    assert(piece_components(two) =~= Seq::<Seq<u8>>::empty());
    assert(components(root) =~= seq![seq![1u8]]);
}

proof fn lemma_parent_piece(pieces: Seq<Seq<u8>>)
    ensures
        piece_components(pieces).contains(parent_component()) <==> pieces.contains(
            seq![46u8, 46u8],
        ),
    decreases pieces.len(),
{
    if pieces.len() > 0 {
        let init = pieces.drop_last();
        lemma_parent_piece(init);
        let last = pieces[pieces.len() - 1];
        assert(last == pieces.last());
        let rest = piece_components(init);
        let all = piece_components(pieces);
        assert(parent_component()[0] == 3);
        assert(current_component()[0] == 2);
        assert(name_component(last)[0] == 4);
        assert(seq![46u8, 46u8].len() == 2 && seq![46u8].len() == 1);
        if rest.contains(parent_component()) {
            let k = choose|k: int| 0 <= k < rest.len() && rest[k] == parent_component();
            assert(all[k] == parent_component());
            let j = choose|j: int| 0 <= j < init.len() && init[j] == seq![46u8, 46u8];
            assert(pieces[j] == seq![46u8, 46u8]);
        }
        if last == seq![46u8, 46u8] {
            assert(all[all.len() - 1] == parent_component());
        }
        if all.contains(parent_component()) && last != seq![46u8, 46u8] {
            let k = choose|k: int| 0 <= k < all.len() && all[k] == parent_component();
            assert(k < rest.len());
            assert(rest[k] == parent_component());
        }
        if pieces.contains(seq![46u8, 46u8]) && last != seq![46u8, 46u8] {
            let k = choose|k: int| 0 <= k < pieces.len() && pieces[k] == seq![46u8, 46u8];
            assert(init[k] == seq![46u8, 46u8]);
        }
    }
}

/// A safe path is not empty, does not begin with a slash, and has no two dots
/// between its slashes.
pub proof fn safe_paths_do_not_lead_out(path: Seq<u8>)
    ensures
        is_safe_relative(path) <==> path.len() > 0 && path[0] != 47 && !bytes::split(
            path,
            47u8,
        ).contains(seq![46u8, 46u8]),
{
    lemma_parent_piece(bytes::split(path, 47u8));
}

/// A path ends in the name behind its last slash, where that is a name, and the
/// directory that holds it is what stands before.
pub proof fn names_stand_behind_the_last_slash(path: Seq<u8>, name: Seq<u8>)
    requires
        path.len() > 0,
        name.len() > 0,
        !name.contains(47u8),
        name != seq![46u8],
    ensures
        name != seq![46u8, 46u8] ==> last_name(path + seq![47u8] + name) == Some(name),
        name == seq![46u8, 46u8] ==> last_name(path + seq![47u8] + name) is None,
        parent_components(path + seq![47u8] + name) == components(path),
{
    components_follow_one_another(path, name);
    let whole = components(path + seq![47u8] + name);
    assert(whole.drop_last() =~= components(path));
    assert((seq![4u8] + name).skip(1) =~= name);
    assert((seq![4u8] + name)[0] == 4);
    assert(seq![3u8][0] == 3);
}

/// A path that is taken from a directory lies below it, unless it begins with a
/// slash.
pub proof fn joined_paths_follow(base: Seq<u8>, relative: Seq<u8>)
    ensures
        relative.len() > 0 && relative[0] == 47 ==> joined(base, relative) == relative,
        (relative.len() == 0 || relative[0] != 47) && base.len() == 0 ==> joined(base, relative)
            == relative,
        (relative.len() == 0 || relative[0] != 47) && base.len() > 0 && base.last() == 47
            ==> joined(base, relative) == base + relative,
        (relative.len() == 0 || relative[0] != 47) && base.len() > 0 && base.last() != 47
            ==> joined(base, relative) == base + seq![47u8] + relative,
{
    assert(base.push(47u8) + relative =~= base + seq![47u8] + relative);
    if base.len() == 0 {
        assert(base + relative =~= relative);
    }
}

} // verus!
