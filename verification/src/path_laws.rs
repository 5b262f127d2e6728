//! Laws of paths: what the steps along a path are, and when paths are the same.
use vstd::prelude::*;

use crate::path;
use crate::path::{ComponentKind, ComponentView, NameView, PathView, StepView};
use crate::rule_model::PatternView;
use crate::rules;

verus! {

/// The steps along names in a directory tree go through them from the first to the last:
/// each stands for its name alone, is shown under it, and counts what is left with it.
pub proof fn law_steps_go_from_first_name_to_last(names: Seq<ComponentView>, i: int)
    ensures
        path::plain_steps(names).len() == names.len(),
        0 <= i < names.len() ==> {
            let step = path::plain_steps(names)[i];
            &&& step.root.len() == 1
            &&& step.root[0] == names[i]
            &&& step.shown == names[i].name.shown()
            &&& step.count + i == names.len()
        },
{
}

/// What follows the first name is the path of the names that follow it.
pub proof fn law_rest_is_the_path_of_later_names(names: Seq<ComponentView>)
    requires
        names.len() > 0,
    ensures
        path::path_root(path::plain_steps(names)).len() == 1,
        path::path_root(path::plain_steps(names))[0] == names[0],
        path::path_rest(path::plain_steps(names)) == path::plain_steps(names.drop_first()),
        path::path_count(path::plain_steps(names)) == names.len(),
{
    assert(path::path_rest(path::plain_steps(names)) =~= path::plain_steps(names.drop_first()));
}

/// A path is parted into its first step and the steps behind it; of no steps nothing is
/// left.
pub proof fn law_path_is_parted_after_first_step(first: StepView, rest: Seq<StepView>)
    ensures
        path::path_root(seq![first] + rest) == first.root,
        path::path_rest(seq![first] + rest) == rest,
        path::path_count(seq![first] + rest) == first.count,
        path::path_root(Seq::empty()).len() == 0,
        path::path_rest(Seq::empty()).len() == 0,
        path::path_count(Seq::empty()) == 0,
{
    assert(path::path_rest(seq![first] + rest) =~= rest);
}

/// Two names are the same component exactly when they are the same name, and two prefixes
/// when they are read as the same, however they are written.
pub proof fn law_components_are_compared_by_what_they_stand_for(
    a: ComponentView,
    b: ComponentView,
)
    ensures
        a.prefix is None && b.prefix is None ==> (a.identity() == b.identity() <==> a.kind
            == b.kind && a.name == b.name),
        a.prefix is Some && b.prefix is Some ==> (a.identity() == b.identity() <==> a.kind
            == b.kind && a.prefix == b.prefix),
        a.prefix is None && b.prefix is Some ==> a.identity() != b.identity(),
{
}

/// Two paths are the same exactly when they have as many components, and the same ones in
/// the same places.
pub proof fn law_paths_are_compared_component_by_component(
    a: Seq<ComponentView>,
    b: Seq<ComponentView>,
)
    ensures
        path::identities(a) == path::identities(b) <==> a.len() == b.len() && forall|i: int|
            0 <= i < a.len() ==> (#[trigger] a[i]).identity() == b[i].identity(),
{
    let x = path::identities(a);
    let y = path::identities(b);
    assert(x.len() == a.len() && y.len() == b.len());
    if x == y {
        assert(a.len() == b.len());
        assert forall|i: int| 0 <= i < a.len() implies (#[trigger] a[i]).identity()
            == b[i].identity() by {
            assert(x[i] == a[i].identity());
            assert(y[i] == b[i].identity());
        }
    }
    if a.len() == b.len() && forall|i: int|
        0 <= i < a.len() ==> (#[trigger] a[i]).identity() == b[i].identity() {
        assert(x =~= y);
    }
}

/// The steps along a written path begin with its first component, displayed as it is
/// written, and go on with those along what is written behind it.
pub proof fn law_steps_of_written_path(
    text: Seq<char>,
    root: Seq<char>,
    rest: Seq<char>,
)
    requires
        path::chopped(text) == Some((root, rest)),
        rest.len() < text.len(),
    ensures
        path::path_steps(text).len() == 1 + path::path_steps(rest).len(),
        path::path_steps(text)[0].shown == root,
        path::path_steps(text)[0].root == path::read_components(root),
        path::path_steps(text)[0].count == path::path_components(text).len(),
        path::path_rest(path::path_steps(text)) == path::path_steps(rest),
{
    assert(path::path_rest(path::path_steps(text)) =~= path::path_steps(rest));
}

/// Where there is no first component, there are no steps.
pub proof fn law_no_steps_without_component(text: Seq<char>)
    requires
        path::chopped(text) is None,
    ensures
        path::path_steps(text).len() == 0,
{
}

/// A path is read as the components that it is written with, one for one. None but a
/// prefix at its beginning is more than its kind and how it is written.
pub proof fn law_components_are_read_as_written(text: Seq<char>, i: int)
    ensures
        path::read_components(text).len() == path::path_components(text).len(),
        0 <= i < path::path_components(text).len() ==> {
            let read = path::read_components(text)[i];
            let written = path::path_components(text)[i];
            &&& read.kind == written.kind
            &&& read.name == written.name
            &&& (i > 0 || written.kind != ComponentKind::Prefix ==> read == written)
        },
{
}

/// A prefix at the beginning of a path is read with the kind and the names that it has.
pub proof fn law_prefix_is_read(text: Seq<char>)
    requires
        path::path_components(text).len() > 0,
        path::path_components(text)[0].kind == ComponentKind::Prefix,
    ensures
        match path::path_prefix(text) {
            None => path::read_components(text)[0].prefix is None,
            Some((kind, parts)) => {
                &&& path::read_components(text)[0].prefix matches Some(prefix)
                &&& prefix.kind == kind
                &&& prefix.parts.len() == parts.len()
                &&& forall|i: int|
                    0 <= i < parts.len() ==> #[trigger] prefix.parts[i] == NameView::Text(parts[i])
            },
        },
{
}

/// A star is the wildcard. Anything else that is written is a pattern for just that path.
pub proof fn law_written_pattern(text: Seq<char>)
    ensures
        text == "*"@ ==> rules::written_pattern(text) == PatternView::Wildcard,
        text != "*"@ ==> rules::written_pattern(text) == PatternView::Exact(
            PathView {
                text: NameView::Text(text),
                components: path::read_components(text),
                steps: path::path_steps(text),
            },
        ),
{
}

/// A name that is text is displayed as it is, and any other as it is to be shown.
pub proof fn law_name_is_displayed(text: Seq<char>, bytes: Seq<u8>)
    ensures
        NameView::Text(text).shown() == text,
        (NameView::Raw { shown: text, bytes }).shown() == text,
{
}

} // verus!
