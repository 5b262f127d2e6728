//! Paths as plain values.
//!
//! A path is read through its components, and through the steps that lead along
//! it: its first component, and then what follows, read anew. [`FsPath::parse`]
//! takes a path written as text apart the way the platform does.
use std::path::Prefix::{DeviceNS, Disk, Verbatim, VerbatimDisk, VerbatimUNC, UNC};
use std::path::{Component, Path};

use vstd::prelude::*;

verus! {

/// A name as the operating system holds it.
#[derive(Debug)]
pub enum OsName {
    /// A name that is Unicode text.
    Text(String),
    /// A name that is not: `bytes` is the name itself, and `shown` is how it is
    /// displayed, with replacement characters where it is not text.
    Raw { shown: String, bytes: Vec<u8> },
}

/// What an [`OsName`] holds.
#[verifier::ext_equal]
pub ghost enum NameView {
    Text(Seq<char>),
    Raw { shown: Seq<char>, bytes: Seq<u8> },
}

impl NameView {
    /// The text under which the name is displayed.
    pub open spec fn shown(self) -> Seq<char> {
        match self {
            NameView::Text(text) => text,
            NameView::Raw { shown, .. } => shown,
        }
    }
}

impl View for OsName {
    type V = NameView;

    open spec fn view(&self) -> NameView {
        match self {
            OsName::Text(text) => NameView::Text(text@),
            OsName::Raw { shown, bytes } => NameView::Raw { shown: shown@, bytes: bytes@ },
        }
    }
}

/// Whether two byte strings are the same.
fn same_bytes(a: &Vec<u8>, b: &Vec<u8>) -> (res: bool)
    ensures
        res == (a@ == b@),
{
    if a.len() != b.len() {
        return false;
    }
    let mut i: usize = 0;
    while i < a.len()
        invariant
            i <= a@.len(),
            a@.len() == b@.len(),
            forall|j: int| 0 <= j < i ==> a@[j] == b@[j],
        decreases a@.len() - i,
    {
        if a[i] != b[i] {
            assert(a@[i as int] != b@[i as int]);
            return false;
        }
        i = i + 1;
    }
    assert(a@ =~= b@);
    true
}

impl OsName {
    /// Whether two names are the same name.
    pub fn same_as(&self, other: &OsName) -> (res: bool)
        ensures
            res == (self@ == other@),
    {
        match (self, other) {
            (OsName::Text(a), OsName::Text(b)) => *a == *b,
            (
                OsName::Raw { shown: a, bytes: a_bytes },
                OsName::Raw { shown: b, bytes: b_bytes },
            ) => *a == *b && same_bytes(a_bytes, b_bytes),
            _ => false,
        }
    }

    /// The text under which the name is displayed.
    pub fn display(&self) -> (res: String)
        ensures
            res@ == self@.shown(),
    {
        match self {
            OsName::Text(text) => text.clone(),
            OsName::Raw { shown, .. } => shown.clone(),
        }
    }
}

impl Clone for OsName {
    fn clone(&self) -> (res: Self)
        ensures
            res@ == self@,
    {
        match self {
            OsName::Text(text) => OsName::Text(text.clone()),
            OsName::Raw { shown, bytes } => {
                let copy = bytes.clone();
                assert(copy@ =~= bytes@);
                OsName::Raw { shown: shown.clone(), bytes: copy }
            },
        }
    }
}

/// What a component of a path stands for.
#[derive(Debug, Clone, Copy, PartialEq, Eq, Structural)]
pub enum ComponentKind {
    /// A drive, a share or a device, on the platforms that have them.
    Prefix,
    /// The root directory.
    RootDir,
    /// The directory itself (`.`).
    CurDir,
    /// The directory above (`..`).
    ParentDir,
    /// An ordinary name.
    Normal,
}

/// What the prefix of a path stands for.
#[derive(Debug, Clone, Copy, PartialEq, Eq, Structural)]
pub enum PrefixKind {
    /// A prefix that is taken as it is (`\\?\pictures`).
    Verbatim,
    /// A share, in the form that is taken as it is (`\\?\UNC\server\share`).
    VerbatimUnc,
    /// The drive with this letter, in the form that is taken as it is (`\\?\C:`).
    VerbatimDisk(u8),
    /// A device (`\\.\COM42`).
    DeviceNs,
    /// A share (`\\server\share`).
    Unc,
    /// The drive with this letter (`C:`).
    Disk(u8),
}

/// The prefix of a path, as it is read: however it is written, two prefixes are the same
/// when these are.
#[derive(Debug)]
pub struct PathPrefix {
    pub kind: PrefixKind,
    /// The names in it: of a share the server and the share.
    pub parts: Vec<OsName>,
}

/// What a [`PathPrefix`] holds.
#[verifier::ext_equal]
pub ghost struct PrefixView {
    pub kind: PrefixKind,
    pub parts: Seq<NameView>,
}

/// What each of a sequence of names holds.
pub open spec fn name_views(names: Seq<OsName>) -> Seq<NameView> {
    Seq::new(names.len(), |i: int| names[i]@)
}

impl View for PathPrefix {
    type V = PrefixView;

    open spec fn view(&self) -> PrefixView {
        PrefixView { kind: self.kind, parts: name_views(self.parts@) }
    }
}

impl PathPrefix {
    /// Whether two prefixes are the same.
    pub fn same_as(&self, other: &PathPrefix) -> (res: bool)
        ensures
            res == (self@ == other@),
    {
        if self.kind != other.kind {
            return false;
        }
        if self.parts.len() != other.parts.len() {
            assert(self@.parts.len() != other@.parts.len());
            return false;
        }
        let mut i: usize = 0;
        while i < self.parts.len()
            invariant
                i <= self.parts@.len(),
                self.parts@.len() == other.parts@.len(),
                forall|j: int| 0 <= j < i ==> self.parts@[j]@ == other.parts@[j]@,
            decreases self.parts@.len() - i,
        {
            if !self.parts[i].same_as(&other.parts[i]) {
                assert(self@.parts[i as int] != other@.parts[i as int]);
                return false;
            }
            i = i + 1;
        }
        assert(self@.parts =~= other@.parts);
        true
    }
}

impl Clone for PathPrefix {
    fn clone(&self) -> (res: Self)
        ensures
            res@ == self@,
    {
        let mut parts: Vec<OsName> = Vec::new();
        let mut i: usize = 0;
        while i < self.parts.len()
            invariant
                i <= self.parts@.len(),
                parts@.len() == i,
                forall|j: int| 0 <= j < i ==> (#[trigger] parts@[j])@ == self.parts@[j]@,
            decreases self.parts@.len() - i,
        {
            parts.push(self.parts[i].clone());
            i = i + 1;
        }
        assert(name_views(parts@) =~= name_views(self.parts@));
        PathPrefix { kind: self.kind, parts }
    }
}

/// One component of a path.
#[derive(Debug)]
pub struct PathComponent {
    pub kind: ComponentKind,
    /// How the component is written.
    pub name: OsName,
    /// Of a prefix, what it is read as.
    pub prefix: Option<PathPrefix>,
}

/// What a [`PathComponent`] holds.
#[verifier::ext_equal]
pub ghost struct ComponentView {
    pub kind: ComponentKind,
    pub name: NameView,
    pub prefix: Option<PrefixView>,
}

/// What an optional prefix holds.
pub open spec fn prefix_view(prefix: Option<PathPrefix>) -> Option<PrefixView> {
    match prefix {
        Some(prefix) => Some(prefix@),
        None => None,
    }
}

impl ComponentView {
    /// What counts when components are compared: of a prefix what it is read as, however
    /// it is written, and of anything else the name.
    pub open spec fn identity(self) -> ComponentView {
        match self.prefix {
            Some(_) => ComponentView { name: NameView::Text(Seq::empty()), ..self },
            None => self,
        }
    }
}

/// What counts when runs of components are compared.
pub open spec fn identities(path: Seq<ComponentView>) -> Seq<ComponentView> {
    Seq::new(path.len(), |i: int| path[i].identity())
}

impl View for PathComponent {
    type V = ComponentView;

    open spec fn view(&self) -> ComponentView {
        ComponentView { kind: self.kind, name: self.name@, prefix: prefix_view(self.prefix) }
    }
}

impl Clone for PathComponent {
    fn clone(&self) -> (res: Self)
        ensures
            res@ == self@,
    {
        let prefix = match &self.prefix {
            Some(prefix) => Some(prefix.clone()),
            None => None,
        };
        PathComponent { kind: self.kind, name: self.name.clone(), prefix }
    }
}

impl PathComponent {
    /// Whether two components are the same.
    pub fn same_as(&self, other: &PathComponent) -> (res: bool)
        ensures
            res == (self@.identity() == other@.identity()),
    {
        if self.kind != other.kind {
            return false;
        }
        match (&self.prefix, &other.prefix) {
            (Some(a), Some(b)) => a.same_as(b),
            (None, None) => self.name.same_as(&other.name),
            _ => false,
        }
    }

    /// The component that an entry of a directory is reached by.
    pub fn normal(name: OsName) -> (res: PathComponent)
        ensures
            res@ == (ComponentView { kind: ComponentKind::Normal, name: name@, prefix: None }),
    {
        PathComponent { kind: ComponentKind::Normal, name, prefix: None }
    }
}

/// What each of a sequence of components holds.
pub open spec fn component_views(components: Seq<PathComponent>) -> Seq<ComponentView> {
    Seq::new(components.len(), |i: int| components[i]@)
}

/// One step along a path: its first component, before the rest is read as a path of its
/// own.
#[derive(Debug)]
pub struct PathStep {
    /// The first component, read as a path of its own.
    pub root: Vec<PathComponent>,
    /// How the first component is displayed.
    pub shown: String,
    /// How many components the path has from here on.
    pub count: usize,
}

/// What a [`PathStep`] holds.
#[verifier::ext_equal]
pub ghost struct StepView {
    pub root: Seq<ComponentView>,
    pub shown: Seq<char>,
    pub count: nat,
}

impl View for PathStep {
    type V = StepView;

    open spec fn view(&self) -> StepView {
        StepView {
            root: component_views(self.root@),
            shown: self.shown@,
            count: self.count as nat,
        }
    }
}

/// What each of a sequence of steps holds.
pub open spec fn step_views(steps: Seq<PathStep>) -> Seq<StepView> {
    Seq::new(steps.len(), |i: int| steps[i]@)
}

impl Clone for PathStep {
    fn clone(&self) -> (res: Self)
        ensures
            res@ == self@,
    {
        PathStep {
            root: clone_components(&self.root),
            shown: self.shown.clone(),
            count: self.count,
        }
    }
}

/// A path: how it is written, the components it is read as, and the steps that lead along
/// it. On most paths there is a step for each component. Behind a prefix there need not
/// be: what follows it is read anew, without it.
#[derive(Debug)]
pub struct FsPath {
    pub text: OsName,
    pub components: Vec<PathComponent>,
    pub steps: Vec<PathStep>,
}

/// What an [`FsPath`] holds.
#[verifier::ext_equal]
pub ghost struct PathView {
    pub text: NameView,
    pub components: Seq<ComponentView>,
    pub steps: Seq<StepView>,
}

impl View for FsPath {
    type V = PathView;

    open spec fn view(&self) -> PathView {
        PathView {
            text: self.text@,
            components: component_views(self.components@),
            steps: step_views(self.steps@),
        }
    }
}

/// The components that the platform takes a path written as `text` apart into, as they
/// are written.
pub uninterp spec fn path_components(text: Seq<char>) -> Seq<ComponentView>;

/// Takes a path written as text apart with [`std::path::Path::components`].
///
/// Claimed of it: the components depend on nothing but the text (on the platform
/// that the program is built for), they are text themselves, and there are some
/// unless the text is empty. Which components they are is left to the platform:
/// separators and `.` are normalised there, and prefixes exist or not.
#[verifier::external_body]
fn split_path(text: &str) -> (res: Vec<PathComponent>)
    ensures
        component_views(res@) == path_components(text@),
        forall|i: int| 0 <= i < res@.len() ==> (#[trigger] res@[i]).name is Text,
        res@.len() == 0 <==> text@.len() == 0,
{
    Path::new(text).components().map(|component| {
        let kind = match component {
            Component::Prefix(_) => ComponentKind::Prefix,
            Component::RootDir => ComponentKind::RootDir,
            Component::CurDir => ComponentKind::CurDir,
            Component::ParentDir => ComponentKind::ParentDir,
            Component::Normal(_) => ComponentKind::Normal,
        };
        let name = OsName::Text(component.as_os_str().to_string_lossy().into_owned());
        PathComponent { kind, name, prefix: None }
    }).collect()
}

/// What the prefix of a path written as `text` is read as, if it has one: its kind, and
/// the names in it.
pub uninterp spec fn path_prefix(text: Seq<char>) -> Option<(PrefixKind, Seq<Seq<char>>)>;

/// What each of a sequence of texts holds.
pub open spec fn text_views(texts: Seq<String>) -> Seq<Seq<char>> {
    Seq::new(texts.len(), |i: int| texts[i]@)
}

/// Reads the prefix of a path written as text with [`std::path::PrefixComponent::kind`].
///
/// Claimed of it: what it is read as depends on nothing but the text (on the platform
/// that the program is built for).
#[verifier::external_body]
fn read_prefix(text: &str) -> (res: Option<(PrefixKind, Vec<String>)>)
    ensures
        match res {
            Some((kind, parts)) => path_prefix(text@) == Some((kind, text_views(parts@))),
            None => path_prefix(text@) is None,
        },
{
    let Component::Prefix(prefix) = Path::new(text).components().next()? else { return None };
    let (kind, parts) = match prefix.kind() {
        Verbatim(a) => (PrefixKind::Verbatim, vec![a]),
        VerbatimUNC(a, b) => (PrefixKind::VerbatimUnc, vec![a, b]),
        VerbatimDisk(letter) => (PrefixKind::VerbatimDisk(letter), vec![]),
        DeviceNS(a) => (PrefixKind::DeviceNs, vec![a]),
        UNC(a, b) => (PrefixKind::Unc, vec![a, b]),
        Disk(letter) => (PrefixKind::Disk(letter), vec![]),
    };
    Some((kind, parts.into_iter().map(|a| a.to_string_lossy().into_owned()).collect()))
}

/// The prefix of a path written as `text`, if it has one.
pub open spec fn prefix_of(text: Seq<char>) -> Option<PrefixView> {
    match path_prefix(text) {
        Some((kind, parts)) => Some(
            PrefixView {
                kind,
                parts: Seq::new(parts.len(), |i: int| NameView::Text(parts[i])),
            },
        ),
        None => None,
    }
}

/// The prefix of a path written as text, if it has one.
fn to_prefix(text: &str) -> (res: Option<PathPrefix>)
    ensures
        prefix_view(res) == prefix_of(text@),
{
    match read_prefix(text) {
        None => None,
        Some((kind, texts)) => {
            let mut parts: Vec<OsName> = Vec::new();
            let mut i: usize = 0;
            while i < texts.len()
                invariant
                    i <= texts@.len(),
                    parts@.len() == i,
                    forall|j: int|
                        0 <= j < i ==> (#[trigger] parts@[j])@ == NameView::Text(texts@[j]@),
                decreases texts@.len() - i,
            {
                parts.push(OsName::Text(texts[i].clone()));
                i = i + 1;
            }
            let res = Some(PathPrefix { kind, parts });
            assert(prefix_view(res)->0.parts =~= prefix_of(text@)->0.parts);
            res
        },
    }
}

/// The components that a path written as `text` is read as: a prefix with what it is
/// read as.
pub open spec fn read_components(text: Seq<char>) -> Seq<ComponentView> {
    let components = path_components(text);
    if components.len() > 0 && components[0].kind == ComponentKind::Prefix {
        components.update(0, ComponentView { prefix: prefix_of(text), ..components[0] })
    } else {
        components
    }
}

/// Reads the components of a path written as text.
fn to_components(text: &str) -> (res: Vec<PathComponent>)
    ensures
        component_views(res@) == read_components(text@),
        forall|i: int| 0 <= i < res@.len() ==> (#[trigger] res@[i]).name is Text,
        res@.len() == 0 <==> text@.len() == 0,
{
    let mut components = split_path(text);
    if components.len() > 0 {
        assert(component_views(components@)[0] == components@[0]@);
        if components[0].kind == ComponentKind::Prefix {
            components[0].prefix = to_prefix(text);
            assert(component_views(components@) =~= read_components(text@));
        }
    }
    components
}

/// The first component of a path written as `text`, and what follows it, as they are
/// written.
pub uninterp spec fn chopped(text: Seq<char>) -> Option<(Seq<char>, Seq<char>)>;

/// Parts a path written as text after its first component, with
/// [`std::path::Components::as_path`].
///
/// Claimed of it: the two parts depend on nothing but the text (on the platform that the
/// program is built for). Unless the text is empty there is a first component, and what
/// follows it is shorter.
#[verifier::external_body]
fn chop_text(text: &str) -> (res: Option<(String, String)>)
    ensures
        match res {
            Some((root, rest)) => chopped(text@) == Some((root@, rest@)) && rest@.len()
                < text@.len(),
            None => chopped(text@) is None && text@.len() == 0,
        },
{
    let mut components = Path::new(text).components();
    let root = components.next()?.as_os_str().to_string_lossy().into_owned();
    Some((root, components.as_path().to_string_lossy().into_owned()))
}

/// The steps that lead along a path written as `text`. What follows the first component
/// is read anew.
pub open spec fn path_steps(text: Seq<char>) -> Seq<StepView>
    decreases text.len(),
{
    match chopped(text) {
        Some((root, rest)) if rest.len() < text.len() => seq![
            StepView {
                root: read_components(root),
                shown: root,
                count: path_components(text).len(),
            },
        ] + path_steps(rest),
        _ => Seq::empty(),
    }
}

/// Adds the steps that lead along a path written as text.
fn push_steps(text: &str, steps: &mut Vec<PathStep>)
    ensures
        step_views(final(steps)@) == step_views(old(steps)@) + path_steps(text@),
        final(steps)@.len() == old(steps)@.len() <==> text@.len() == 0,
        final(steps)@.len() >= old(steps)@.len(),
    decreases text@.len(),
{
    let ghost before = step_views(steps@);
    match chop_text(text) {
        Some((root, rest)) => {
            let count: usize = split_path(text).len();
            let step = PathStep { root: to_components(root.as_str()), shown: root, count };
            let ghost held = steps@;
            steps.push(step);
            assert(step_views(steps@) =~= step_views(held).push(step@));
            push_steps(rest.as_str(), steps);
            assert(step_views(steps@) =~= before + path_steps(text@));
        },
        None => {
            assert(before + Seq::<StepView>::empty() =~= before);
        },
    }
}

/// How the path `path` under the directory `root` is displayed.
pub uninterp spec fn joined_path(root: Seq<char>, path: Seq<char>) -> Seq<char>;

/// Puts a path under a directory with [`std::path::Path::join`].
///
/// Claimed of it: the text of the joined path depends on nothing but the two
/// texts. An absolute `path` replaces `root`, and which separator stands between
/// the two is left to the platform.
#[verifier::external_body]
fn join_paths(root: &str, path: &str) -> (res: String)
    ensures
        res@ == joined_path(root@, path@),
{
    Path::new(root).join(path).display().to_string()
}

/// Whether two runs of components are the same.
pub fn same_components(a: &[PathComponent], b: &[PathComponent]) -> (res: bool)
    ensures
        res == (identities(component_views(a@)) == identities(component_views(b@))),
{
    if a.len() != b.len() {
        assert(identities(component_views(a@)).len() != identities(component_views(b@)).len());
        return false;
    }
    let mut i: usize = 0;
    while i < a.len()
        invariant
            i <= a@.len(),
            a@.len() == b@.len(),
            forall|j: int| 0 <= j < i ==> a@[j]@.identity() == b@[j]@.identity(),
        decreases a@.len() - i,
    {
        if !a[i].same_as(&b[i]) {
            assert(identities(component_views(a@))[i as int] != identities(
                component_views(b@),
            )[i as int]);
            return false;
        }
        i = i + 1;
    }
    assert(identities(component_views(a@)) =~= identities(component_views(b@)));
    true
}

/// The first component of a path, as a path of its own. Of a path without
/// components that is the path without components.
pub open spec fn path_root(path: Seq<StepView>) -> Seq<ComponentView> {
    if path.len() == 0 {
        Seq::empty()
    } else {
        path[0].root
    }
}

/// What follows the first component of a path.
pub open spec fn path_rest(path: Seq<StepView>) -> Seq<StepView> {
    if path.len() == 0 {
        path
    } else {
        path.drop_first()
    }
}

/// How many components a path has.
pub open spec fn path_count(path: Seq<StepView>) -> nat {
    if path.len() == 0 {
        0
    } else {
        path[0].count
    }
}

/// Whether every step along a path is one component of it. Behind a prefix that need not
/// be so.
pub open spec fn is_plain(path: Seq<StepView>) -> bool {
    forall|i: int| 0 <= i < path.len() ==> (#[trigger] path[i]).count == path.len() - i
}

/// The steps along a path of these components, each of which is a path of its own.
pub open spec fn plain_steps(components: Seq<ComponentView>) -> Seq<StepView> {
    Seq::new(
        components.len(),
        |i: int|
            StepView {
                root: seq![components[i]],
                shown: components[i].name.shown(),
                count: (components.len() - i) as nat,
            },
    )
}

/// Parts a path after its first component.
pub fn chop_path_root<'a>(path: &'a [PathStep]) -> (res: (&'a [PathComponent], &'a [PathStep]))
    ensures
        component_views(res.0@) == path_root(step_views(path@)),
        step_views(res.1@) == path_rest(step_views(path@)),
        path@.len() > 0 ==> res.1@ == path@.drop_first(),
        path@.len() == 0 ==> res.1@.len() == 0,
{
    if path.len() == 0 {
        let (_, rest) = path.split_at(0);
        let root: &'a [PathComponent] = &[];
        assert(component_views(root@) =~= Seq::<ComponentView>::empty());
        assert(step_views(rest@) =~= step_views(path@));
        (root, rest)
    } else {
        let (_, rest) = path.split_at(1);
        assert(rest@ =~= path@.drop_first());
        assert(step_views(rest@) =~= step_views(path@).drop_first());
        (path[0].root.as_slice(), rest)
    }
}

/// The steps along a path of these components, each of which is a path of its own.
pub(crate) fn to_plain_steps(components: &Vec<PathComponent>) -> (res: Vec<PathStep>)
    ensures
        step_views(res@) == plain_steps(component_views(components@)),
{
    let ghost views = component_views(components@);
    let mut steps: Vec<PathStep> = Vec::new();
    let mut i: usize = 0;
    while i < components.len()
        invariant
            i <= components@.len(),
            steps@.len() == i,
            views == component_views(components@),
            forall|j: int| 0 <= j < i ==> (#[trigger] steps@[j])@ == plain_steps(views)[j],
        decreases components@.len() - i,
    {
        let component = &components[i];
        let mut root: Vec<PathComponent> = Vec::new();
        root.push(component.clone());
        assert(component_views(root@) =~= seq![views[i as int]]);
        steps.push(
            PathStep { root, shown: component.name.display(), count: components.len() - i },
        );
        i = i + 1;
    }
    assert(step_views(steps@) =~= plain_steps(views));
    steps
}

impl FsPath {
    /// The path written as `text`.
    pub fn parse(text: &str) -> (res: FsPath)
        ensures
            res@ == (PathView {
                text: NameView::Text(text@),
                components: read_components(text@),
                steps: path_steps(text@),
            }),
            forall|i: int|
                0 <= i < res@.components.len() ==> (#[trigger] res@.components[i]).name is Text,
            res@.components.len() == 0 <==> text@.len() == 0,
            res@.steps.len() == 0 <==> text@.len() == 0,
    {
        let mut steps: Vec<PathStep> = Vec::new();
        push_steps(text, &mut steps);
        assert(step_views(steps@) =~= path_steps(text@));
        let components = to_components(text);
        assert forall|i: int| 0 <= i < components@.len() implies (
        #[trigger] component_views(components@)[i]).name is Text by {
            assert(components@[i].name is Text);
        }
        FsPath { text: OsName::Text(text.to_owned()), components, steps }
    }

    /// Whether two paths are equal: they are when their components are, however
    /// they are written.
    pub fn same_as(&self, other: &FsPath) -> (res: bool)
        ensures
            res == (identities(self@.components) == identities(other@.components)),
    {
        same_components(self.components.as_slice(), other.components.as_slice())
    }

    /// The text under which the path is displayed.
    pub fn display(&self) -> (res: String)
        ensures
            res@ == self@.text.shown(),
    {
        self.text.display()
    }

    /// The text under which `path`, taken under this directory, is displayed.
    pub fn display_under(&self, path: &FsPath) -> (res: String)
        ensures
            res@ == joined_path(self@.text.shown(), path@.text.shown()),
    {
        let root = self.display();
        let rest = path.display();
        join_paths(root.as_str(), rest.as_str())
    }
}

/// Copies a run of components.
pub(crate) fn clone_components(components: &Vec<PathComponent>) -> (res: Vec<PathComponent>)
    ensures
        component_views(res@) == component_views(components@),
{
    let mut res: Vec<PathComponent> = Vec::new();
    let mut i: usize = 0;
    while i < components.len()
        invariant
            i <= components@.len(),
            res@.len() == i,
            forall|j: int| 0 <= j < i ==> (#[trigger] res@[j])@ == components@[j]@,
        decreases components@.len() - i,
    {
        res.push(components[i].clone());
        i = i + 1;
    }
    assert(component_views(res@) =~= component_views(components@));
    res
}

impl Clone for FsPath {
    fn clone(&self) -> (res: Self)
        ensures
            res@ == self@,
    {
        let mut steps: Vec<PathStep> = Vec::new();
        let mut i: usize = 0;
        while i < self.steps.len()
            invariant
                i <= self.steps@.len(),
                steps@.len() == i,
                forall|j: int| 0 <= j < i ==> (#[trigger] steps@[j])@ == self.steps@[j]@,
            decreases self.steps@.len() - i,
        {
            steps.push(self.steps[i].clone());
            i = i + 1;
        }
        assert(step_views(steps@) =~= step_views(self.steps@));
        FsPath { text: self.text.clone(), components: clone_components(&self.components), steps }
    }
}

} // verus!
