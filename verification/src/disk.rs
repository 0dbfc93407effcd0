//! Profiles as they are written to disk, in a form that can be taken to another
//! device or system: paths are relative to the configuration directory, and
//! images that an instance holds as data become files beside it.
use vstd::prelude::*;
use vstd::utf8::*;
use crate::instances;
use crate::instances::instance_images_dir;
use crate::json::{Json, JsonView};
use crate::marketplace;
use crate::marketplace::decode_standard;
use crate::migration;
use crate::path;
use crate::path::{components_of, relative_to};
use crate::relocate;
use crate::relocate::profile_images_dir;
use crate::shared;
use crate::shared::{
    join, normalize_builtin_action, normalize_starterpack_action, normalize_starterpack_paths,
    Action, ActionContext, ActionContextView, ActionInstance, ActionState, ActionView,
    EncoderScreenCrop, InstanceView, Page, PageView, Profile, ProfileView, StateView,
};
use crate::text;
use crate::text::{
    chars_of, clone_opt, concat3, contains_char, decimal_text, owned, parse_unsigned, same_text,
    split, split_once, starts_with, text_behind, text_of_range, texts_contain, trim,
};

verus! {

// ---------------------------------------------------------------------------
// Contexts
// ---------------------------------------------------------------------------

/// The place of an instance on its page.
pub struct DiskActionContext {
    pub controller: String,
    pub position: u8,
    pub index: u16,
}

/// The model of a `DiskActionContext`.
pub struct DiskContextView {
    pub controller: Seq<char>,
    pub position: u8,
    pub index: u16,
}

impl View for DiskActionContext {
    type V = DiskContextView;

    open spec fn view(&self) -> DiskContextView {
        DiskContextView {
            controller: self.controller@,
            position: self.position,
            index: self.index,
        }
    }
}

/// The text of a place: its parts with dots between them.
pub open spec fn place_text(c: DiskContextView) -> Seq<char> {
    c.controller + seq!['.'] + text::decimal(c.position as nat) + seq!['.'] + text::decimal(
        c.index as nat,
    )
}

/// The place that a text stands for. With five parts the first two, a device
/// and a profile, are passed over.
pub open spec fn parsed_place(s: Seq<char>) -> Option<DiskContextView> {
    let p = text::split_on(s, '.');
    let k: int = if p.len() == 5 {
        2
    } else {
        0
    };
    match (text::parsed_unsigned(p[1 + k], 255), text::parsed_unsigned(p[2 + k], 65535)) {
        (Some(position), Some(index)) => Some(
            DiskContextView {
                controller: p[k],
                position: position as u8,
                index: index as u16,
            },
        ),
        _ => None,
    }
}

impl DiskActionContext {
    /// The text of the place.
    pub fn to_text(&self) -> (r: String)
        ensures
            r@ == place_text(self@),
    {
        let mut s = self.controller.clone();
        s.push('.');
        let position = decimal_text(self.position as u64);
        s.append(&position);
        s.push('.');
        let index = decimal_text(self.index as u64);
        s.append(&index);
        assert(s@ =~= place_text(self@));
        s
    }

    /// The place that a text of at least three parts stands for; `None` where
    /// its position or index is no such number.
    pub fn parse(s: &str) -> (r: Option<DiskActionContext>)
        requires
            text::split_on(s@, '.').len() >= 3,
        ensures
            match r {
                Some(c) => parsed_place(s@) == Some(c@),
                None => parsed_place(s@) is None,
            },
    {
        let p = split(s, '.');
        let ghost parts = text::split_on(s@, '.');
        assert(parts.len() == p@.len());
        assert(forall|i: int| 0 <= i < p@.len() ==> parts[i] == (#[trigger] p@[i])@);
        let k: usize = if p.len() == 5 {
            2
        } else {
            0
        };
        match (parse_unsigned(&p[1 + k], 255), parse_unsigned(&p[2 + k], 65535)) {
            (Some(position), Some(index)) => Some(
                DiskActionContext {
                    controller: p[k].clone(),
                    position: position as u8,
                    index: index as u16,
                },
            ),
            _ => None,
        }
    }

    /// The place of an instance on its page.
    pub fn from_action_context(value: &ActionContext) -> (r: DiskActionContext)
        ensures
            r@ == place_of(value@),
    {
        DiskActionContext {
            controller: value.controller.clone(),
            position: value.position,
            index: value.index,
        }
    }

    /// The place on a page of a profile.
    pub fn into_action_context(&self, device: &str, profile: &str, page: &str) -> (r: ActionContext)
        ensures
            r@ == at_place(self@, device@, profile@, page@),
    {
        ActionContext {
            device: owned(device),
            profile: owned(profile),
            page: owned(page),
            controller: self.controller.clone(),
            position: self.position,
            index: self.index,
        }
    }
}

/// The place of an instance on its page.
pub open spec fn place_of(c: ActionContextView) -> DiskContextView {
    DiskContextView { controller: c.controller, position: c.position, index: c.index }
}

/// A place on a page of a profile.
pub open spec fn at_place(
    c: DiskContextView,
    device: Seq<char>,
    profile: Seq<char>,
    page: Seq<char>,
) -> ActionContextView {
    ActionContextView {
        device,
        profile,
        page,
        controller: c.controller,
        position: c.position,
        index: c.index,
    }
}

/// The text of a place reads back as that place, where the controller holds no
/// dot.
pub proof fn law_place_round_trip(c: DiskContextView)
    requires
        !c.controller.contains('.'),
    ensures
        text::split_on(place_text(c), '.').len() == 3,
        parsed_place(place_text(c)) == Some(c),
{
    let position = text::decimal(c.position as nat);
    let index = text::decimal(c.index as nat);
    text::lemma_decimal(c.position as nat);
    text::lemma_decimal(c.index as nat);
    text::lemma_parse_decimal(c.position as nat, 255);
    text::lemma_parse_decimal(c.index as nat, 65535);
    assert(!position.contains('.')) by {
        if position.contains('.') {
            let i = choose|i: int| 0 <= i < position.len() && position[i] == '.';
            assert(text::is_digit(position[i]));
        }
    }
    assert(!index.contains('.')) by {
        if index.contains('.') {
            let i = choose|i: int| 0 <= i < index.len() && index[i] == '.';
            assert(text::is_digit(index[i]));
        }
    }
    assert(place_text(c) =~= c.controller + seq!['.'] + (position + seq!['.'] + index));
    text::lemma_split_on_head(c.controller, '.', position + seq!['.'] + index);
    text::lemma_split_on_head(position, '.', index);
    text::lemma_split_on_none(index, '.');
    let p = text::split_on(place_text(c), '.');
    assert(p =~= seq![c.controller, position, index]);
}

// ---------------------------------------------------------------------------
// Images that are held as data
// ---------------------------------------------------------------------------

/// A transparent image of one pixel.
pub const BLANK_IMAGE: &'static str =
    "data:image/png;base64,iVBORw0KGgoAAAANSUhEUgAAAAEAAAABCAYAAAAfFcSJAAAADUlEQVQIW2NgYGD4DwABBAEAwS2OUAAAAABJRU5ErkJggg==";

/// An image, or a blank one where it is data without any.
pub open spec fn filled(image: Seq<char>) -> Seq<char> {
    if text::trimmed(image) == "data:"@ {
        BLANK_IMAGE@
    } else {
        image
    }
}

fn fill(image: &str) -> (r: String)
    ensures
        r@ == filled(image@),
{
    let t = trim(image);
    if same_text(&t, "data:") {
        owned(BLANK_IMAGE)
    } else {
        owned(image)
    }
}

/// The part of `s` before its first `c`, or `s`.
pub open spec fn up_to(s: Seq<char>, c: char) -> Seq<char> {
    s.take(text::index_of_char(s, c))
}

fn text_up_to(s: &str, c: char) -> (r: String)
    ensures
        r@ == up_to(s@, c),
{
    let v = chars_of(s);
    let k = text::find_char(&v, c);
    let r = text_of_range(&v, 0, k);
    assert(r@ =~= up_to(s@, c));
    r
}

/// The extension of a file for data: what stands between its first `/` and the
/// next `,`, up to a `;` or `+`. `None` where these are missing.
pub open spec fn data_extension(image: Seq<char>) -> Option<Seq<char>> {
    if !image.contains('/') {
        None
    } else {
        let rest = image.skip(text::index_of_char(image, '/') + 1);
        if !rest.contains(',') {
            None
        } else {
            Some(up_to(up_to(up_to(rest, ','), ';'), '+'))
        }
    }
}

fn extension_of_data(image: &str) -> (r: Option<String>)
    ensures
        text::opt_text(r) == data_extension(image@),
{
    match split_once(image, '/') {
        Some(p) => {
            if !contains_char(&p.1, ',') {
                return None;
            }
            let kind = text_up_to(&p.1, ',');
            let kind = text_up_to(&kind, ';');
            Some(text_up_to(&kind, '+'))
        },
        None => None,
    }
}

/// The bytes that data holds: what follows `;base64,`, decoded, or else what
/// follows the first comma, as it is.
pub open spec fn data_bytes(image: Seq<char>) -> Option<Seq<u8>> {
    match text::behind(image, ";base64,"@) {
        Some(encoded) => marketplace::base64_standard(encoded),
        None => Some(encode_utf8(image.skip(text::index_of_char(image, ',') + 1))),
    }
}

/// The bytes that data with a comma holds.
pub fn bytes_of_data(image: &str) -> (r: Option<Vec<u8>>)
    requires
        image@.contains(','),
    ensures
        marketplace::opt_bytes(r) == data_bytes(image@),
{
    match text_behind(image, ";base64,") {
        Some(encoded) => decode_standard(&encoded),
        None => match split_once(image, ',') {
            Some(p) => {
                let bytes = p.1.as_str().as_bytes();
                let out = vstd::slice::slice_to_vec(bytes);
                assert(out@ =~= bytes@);
                Some(out)
            },
            None => None,
        },
    }
}

/// The file for the image of state `index` that is held as data.
pub open spec fn data_file(image: Seq<char>, index: int) -> Seq<char> {
    text::decimal(index as nat) + "."@ + data_extension(image)->0
}

/// An image that is held as data names its kind.
pub open spec fn is_storable(image: Seq<char>) -> bool {
    "data:"@.is_prefix_of(filled(image)) ==> data_extension(filled(image)) is Some
}

/// All images of an instance and its children that are held as data name their
/// kind.
pub open spec fn storable(i: InstanceView) -> bool
    decreases i,
{
    &&& forall|k: int| 0 <= k < i.states.len() ==> is_storable(#[trigger] i.states[k].image)
    &&& match i.children {
        Some(c) => forall|k: int| 0 <= k < c.len() ==> storable(#[trigger] c[k]),
        None => true,
    }
}

/// A file to write.
pub struct ImageWrite {
    pub dir: String,
    pub name: String,
    pub data: Vec<u8>,
}

/// The model of an `ImageWrite`.
pub struct WriteView {
    pub dir: Seq<char>,
    pub name: Seq<char>,
    pub data: Seq<u8>,
}

impl View for ImageWrite {
    type V = WriteView;

    open spec fn view(&self) -> WriteView {
        WriteView { dir: self.dir@, name: self.name@, data: self.data@ }
    }
}

/// The models of files to write.
pub open spec fn writes_view(s: Seq<ImageWrite>) -> Seq<WriteView> {
    s.map_values(|w: ImageWrite| w@)
}

/// The files for those images among the first `n` that are held as data.
pub open spec fn state_writes(s: Seq<StateView>, dir: Seq<char>, n: nat) -> Seq<WriteView>
    decreases n,
{
    if n == 0 || n > s.len() {
        Seq::empty()
    } else {
        let rest = state_writes(s, dir, (n - 1) as nat);
        let image = filled(s[n - 1].image);
        if "data:"@.is_prefix_of(image) && data_bytes(image) is Some {
            rest.push(
                WriteView { dir, name: data_file(image, n - 1), data: data_bytes(image)->0 },
            )
        } else {
            rest
        }
    }
}

proof fn lemma_extension_has_comma(image: Seq<char>)
    requires
        data_extension(image) is Some,
    ensures
        image.contains(','),
{
    let k = text::index_of_char(image, '/') + 1;
    text::lemma_index_of_char(image, '/');
    let rest = image.skip(k);
    let i = choose|i: int| 0 <= i < rest.len() && rest[i] == ',';
    assert(image[k + i] == ',');
}

/// The files to write before an instance is stored, in the order of its states.
/// Those of its children come with the children.
pub fn image_writes(instance: &ActionInstance, config_dir: &str) -> (r: Vec<ImageWrite>)
    requires
        storable(instance@),
    ensures
        writes_view(r@) == state_writes(
            instance@.states,
            instances::instance_images(config_dir@, instance@.context),
            instance@.states.len(),
        ),
{
    broadcast use shared::lemma_instance_view;

    let dir = instance_images_dir(config_dir, &instance.context);
    let mut out: Vec<ImageWrite> = Vec::new();
    let ghost states = instance@.states;
    let mut k: usize = 0;
    assert(writes_view(out@) =~= Seq::empty());
    while k < instance.states.len()
        invariant
            k <= instance.states@.len(),
            states == shared::states_view(instance.states@),
            storable(instance@),
            states == instance@.states,
            writes_view(out@) == state_writes(states, dir@, k as nat),
        decreases instance.states@.len() - k,
    {
        assert(states[k as int] == instance.states@[k as int]@);
        assert(is_storable(instance@.states[k as int].image));
        let image = fill(&instance.states[k].image);
        let ghost before = out@;
        if starts_with(&image, "data:") {
            proof {
                lemma_extension_has_comma(image@);
            }
            match (extension_of_data(&image), bytes_of_data(&image)) {
                (Some(e), Some(data)) => {
                    let number = decimal_text(k as u64);
                    let name = concat3(&number, ".", &e);
                    assert(name@ =~= data_file(image@, k as int));
                    let w = ImageWrite { dir: dir.clone(), name, data };
                    out.push(w);
                    assert(writes_view(out@) =~= writes_view(before).push(w@));
                },
                _ => {},
            }
        }
        k = k + 1;
    }
    out
}

// ---------------------------------------------------------------------------
// Paths
// ---------------------------------------------------------------------------

/// The name of a file among the images of its instance, where it begins with a
/// number: the names under which images that were held as data are written.
pub open spec fn own_name(value: Seq<char>, image_dir: Seq<char>) -> Option<Seq<char>> {
    match path::relative_path(value, image_dir) {
        Some(rel) => if rel.len() > 0 && is_numeric(rel[0]) {
            Some(rel)
        } else {
            None
        },
        None => None,
    }
}

fn own_name_of(value: &str, image_dir: &str) -> (r: Option<String>)
    ensures
        text::opt_text(r) == own_name(value@, image_dir@),
{
    match relative_to(value, image_dir) {
        Some(rel) => {
            let v = chars_of(&rel);
            if v.len() > 0 && v[0].is_numeric() {
                Some(rel)
            } else {
                None
            }
        },
        None => None,
    }
}

/// A path as it is stored: the name of a file of the instance, or a path relative
/// to the configuration directory where it lies below it.
pub open spec fn normalised(value: Seq<char>, image_dir: Seq<char>, config_dir: Seq<char>) -> Seq<
    char,
> {
    match own_name(value, image_dir) {
        Some(rel) => rel,
        None => match path::relative_path(value, config_dir) {
            Some(rel) => rel,
            None => value,
        },
    }
}

fn normalise(value: &str, image_dir: &str, config_dir: &str) -> (r: String)
    ensures
        r@ == normalised(value@, image_dir@, config_dir@),
{
    match own_name_of(value, image_dir) {
        Some(rel) => rel,
        None => match relative_to(value, config_dir) {
            Some(rel) => rel,
            None => owned(value),
        },
    }
}

/// A value that is no path: nothing, data, or an icon of the host.
pub open spec fn is_no_path(value: Seq<char>) -> bool {
    value.len() == 0 || "data:"@.is_prefix_of(value) || "riverdeck/"@.is_prefix_of(value)
        || "opendeck/"@.is_prefix_of(value)
}

/// A stored path below the configuration directory.
pub open spec fn reconstructed(value: Seq<char>, config_dir: Seq<char>) -> Seq<char> {
    if is_no_path(value) {
        value
    } else {
        shared::joined(config_dir, value)
    }
}

fn reconstruct(value: &str, config_dir: &str) -> (r: String)
    ensures
        r@ == reconstructed(value@, config_dir@),
{
    if value.is_empty() || starts_with(value, "data:") || starts_with(value, "riverdeck/")
        || starts_with(value, "opendeck/") {
        owned(value)
    } else {
        join(config_dir, value)
    }
}

/// A stored path, with the present name of the starter pack.
pub open spec fn read_path(value: Seq<char>, config_dir: Seq<char>) -> Seq<char> {
    reconstructed(shared::starterpack_path(value), config_dir)
}

fn read_stored_path(value: &str, config_dir: &str) -> (r: String)
    ensures
        r@ == read_path(value@, config_dir@),
{
    let mut v = owned(value);
    normalize_starterpack_paths(&mut v);
    reconstruct(&v, config_dir)
}

// ---------------------------------------------------------------------------
// Storing
// ---------------------------------------------------------------------------

/// An image of a state as it is stored: the name of its file where it was held
/// as data and that file has been written, else a relative path.
pub open spec fn stored_image(
    image: Seq<char>,
    index: int,
    image_dir: Seq<char>,
    config_dir: Seq<char>,
    written: Seq<Seq<char>>,
) -> Seq<char> {
    let im = filled(image);
    if "data:"@.is_prefix_of(im) {
        let file = data_file(im, index);
        if data_bytes(im) is Some && written.contains(shared::joined(image_dir, file)) {
            normalised(file, image_dir, config_dir)
        } else {
            im
        }
    } else {
        normalised(im, image_dir, config_dir)
    }
}

/// The states as they are stored.
pub open spec fn stored_states(
    s: Seq<StateView>,
    image_dir: Seq<char>,
    config_dir: Seq<char>,
    written: Seq<Seq<char>>,
) -> Seq<StateView> {
    Seq::new(
        s.len(),
        |k: int|
            StateView {
                image: stored_image(s[k].image, k, image_dir, config_dir, written),
                ..s[k]
            },
    )
}

fn store_states(
    states: &Vec<ActionState>,
    image_dir: &str,
    config_dir: &str,
    written: &Vec<String>,
) -> (r: Vec<ActionState>)
    requires
        forall|k: int|
            0 <= k < states@.len() ==> is_storable(
                #[trigger] shared::states_view(states@)[k].image,
            ),
    ensures
        shared::states_view(r@) == stored_states(
            shared::states_view(states@),
            image_dir@,
            config_dir@,
            text::texts(written@),
        ),
{
    let ghost models = shared::states_view(states@);
    let mut out: Vec<ActionState> = Vec::new();
    let mut k: usize = 0;
    while k < states.len()
        invariant
            k <= states@.len(),
            out@.len() == k,
            models == shared::states_view(states@),
            forall|j: int| 0 <= j < states@.len() ==> is_storable(#[trigger] models[j].image),
            forall|j: int|
                0 <= j < k ==> (#[trigger] out@[j])@ == stored_states(
                    models,
                    image_dir@,
                    config_dir@,
                    text::texts(written@),
                )[j],
        decreases states@.len() - k,
    {
        assert(models[k as int] == states@[k as int]@);
        assert(is_storable(models[k as int].image));
        let mut st = states[k].copy();
        let image = fill(&states[k].image);
        if starts_with(&image, "data:") {
            proof {
                lemma_extension_has_comma(image@);
            }
            match (extension_of_data(&image), bytes_of_data(&image)) {
                (Some(e), Some(_)) => {
                    let number = decimal_text(k as u64);
                    let name = concat3(&number, ".", &e);
                    assert(name@ =~= data_file(image@, k as int));
                    let file = join(image_dir, &name);
                    if texts_contain(written, &file) {
                        st.image = normalise(&name, image_dir, config_dir);
                    } else {
                        st.image = image;
                    }
                },
                _ => {
                    st.image = image;
                },
            }
        } else {
            st.image = normalise(&image, image_dir, config_dir);
        }
        out.push(st);
        k = k + 1;
    }
    assert(shared::states_view(out@) =~= stored_states(
        models,
        image_dir@,
        config_dir@,
        text::texts(written@),
    ));
    out
}

/// The action as it is stored.
pub open spec fn stored_action(a: ActionView, image_dir: Seq<char>, config_dir: Seq<char>) -> ActionView {
    ActionView {
        states: Seq::new(
            a.states.len(),
            |k: int|
                StateView {
                    image: normalised(a.states[k].image, image_dir, config_dir),
                    ..a.states[k]
                },
        ),
        icon: normalised(a.icon, image_dir, config_dir),
        property_inspector: normalised(a.property_inspector, image_dir, config_dir),
        ..a
    }
}

fn store_action(a: &Action, image_dir: &str, config_dir: &str) -> (r: Action)
    ensures
        r@ == stored_action(a@, image_dir@, config_dir@),
{
    let mut states: Vec<ActionState> = Vec::new();
    let mut k: usize = 0;
    while k < a.states.len()
        invariant
            k <= a.states@.len(),
            states@.len() == k,
            forall|j: int|
                0 <= j < k ==> (#[trigger] states@[j])@ == (StateView {
                    image: normalised(a.states@[j].image@, image_dir@, config_dir@),
                    ..a.states@[j]@
                }),
        decreases a.states@.len() - k,
    {
        let mut st = a.states[k].copy();
        st.image = normalise(&a.states[k].image, image_dir, config_dir);
        states.push(st);
        k = k + 1;
    }
    let mut out = a.copy();
    out.states = states;
    out.icon = normalise(&a.icon, image_dir, config_dir);
    out.property_inspector = normalise(&a.property_inspector, image_dir, config_dir);
    assert(out@.states =~= stored_action(a@, image_dir@, config_dir@).states);
    out
}

/// An instance as it is stored.
pub struct DiskActionInstance {
    pub action: Action,
    pub context: DiskActionContext,
    pub states: Vec<ActionState>,
    pub current_state: u16,
    pub settings: Json,
    pub children: Option<Vec<DiskActionInstance>>,
}

/// The model of a `DiskActionInstance`.
pub struct DiskInstanceView {
    pub action: ActionView,
    pub context: DiskContextView,
    pub states: Seq<StateView>,
    pub current_state: u16,
    pub settings: JsonView,
    pub children: Option<Seq<DiskInstanceView>>,
}

/// The model of a stored instance.
pub open spec fn disk_model(i: DiskActionInstance) -> DiskInstanceView
    decreases i,
{
    DiskInstanceView {
        action: i.action@,
        context: i.context@,
        states: shared::states_view(i.states@),
        current_state: i.current_state,
        settings: i.settings@,
        children: match i.children {
            Some(c) => Some(
                Seq::new(
                    c@.len(),
                    |k: int|
                        if 0 <= k < c@.len() {
                            disk_model(c@[k])
                        } else {
                            arbitrary()
                        },
                ),
            ),
            None => None,
        },
    }
}

impl View for DiskActionInstance {
    type V = DiskInstanceView;

    open spec fn view(&self) -> DiskInstanceView {
        disk_model(*self)
    }
}

/// The models of a row of stored instances.
pub open spec fn disk_instances(s: Seq<DiskActionInstance>) -> Seq<DiskInstanceView> {
    Seq::new(s.len(), |k: int| s[k]@)
}

/// The models of stored children.
pub open spec fn disk_children(c: Option<Vec<DiskActionInstance>>) -> Option<
    Seq<DiskInstanceView>,
> {
    match c {
        Some(v) => Some(disk_instances(v@)),
        None => None,
    }
}

/// The view of a stored instance is that of its parts.
pub broadcast proof fn lemma_disk_view(i: DiskActionInstance)
    ensures
        #[trigger] i@ == (DiskInstanceView {
            action: i.action@,
            context: i.context@,
            states: shared::states_view(i.states@),
            current_state: i.current_state,
            settings: i.settings@,
            children: disk_children(i.children),
        }),
{
    match i.children {
        Some(c) => {
            assert(i@.children->0 =~= disk_instances(c@));
        },
        None => {},
    }
}

/// An instance as it is stored, given the files that have been written.
pub open spec fn stored(i: InstanceView, config_dir: Seq<char>, written: Seq<Seq<char>>) -> DiskInstanceView
    decreases i,
{
    let dir = instances::instance_images(config_dir, i.context);
    DiskInstanceView {
        action: stored_action(i.action, dir, config_dir),
        context: place_of(i.context),
        states: stored_states(i.states, dir, config_dir, written),
        current_state: i.current_state,
        settings: i.settings,
        children: match i.children {
            Some(c) => Some(
                Seq::new(
                    c.len(),
                    |k: int|
                        if 0 <= k < c.len() {
                            stored(c[k], config_dir, written)
                        } else {
                            arbitrary()
                        },
                ),
            ),
            None => None,
        },
    }
}

/// An instance as it is stored, given the files that have been written.
pub fn store_instance(value: &ActionInstance, config_dir: &str, written: &Vec<String>) -> (r:
    DiskActionInstance)
    requires
        storable(value@),
    ensures
        r@ == stored(value@, config_dir@, text::texts(written@)),
    decreases value,
{
    broadcast use {shared::lemma_instance_view, lemma_disk_view};

    let dir = instance_images_dir(config_dir, &value.context);
    let ghost goal = stored(value@, config_dir@, text::texts(written@));
    let children = match &value.children {
        Some(c) => {
            let mut out: Vec<DiskActionInstance> = Vec::new();
            let mut i: usize = 0;
            while i < c.len()
                invariant
                    i <= c@.len(),
                    value.children == Some(*c),
                    value@.children == Some(shared::instances_view(c@)),
                    storable(value@),
                    out@.len() == i,
                    forall|k: int|
                        0 <= k < i ==> (#[trigger] out@[k])@ == stored(
                            c@[k]@,
                            config_dir@,
                            text::texts(written@),
                        ),
                decreases c@.len() - i,
            {
                assert(decreases_to!(value => value.children));
                assert(decreases_to!(value.children => value.children->0));
                assert(decreases_to!(c => c@));
                assert(decreases_to!(c@ => c@[i as int]));
                assert(storable(value@.children->0[i as int]));
                out.push(store_instance(&c[i], config_dir, written));
                i = i + 1;
            }
            assert(disk_instances(out@) =~= goal.children->0);
            Some(out)
        },
        None => None,
    };
    DiskActionInstance {
        action: store_action(&value.action, &dir, config_dir),
        context: DiskActionContext::from_action_context(&value.context),
        states: store_states(&value.states, &dir, config_dir, written),
        current_state: value.current_state,
        settings: value.settings.copy(),
        children,
    }
}

// ---------------------------------------------------------------------------
// Loading
// ---------------------------------------------------------------------------

/// `char::is_numeric` beyond ASCII: the character is of one of Unicode's
/// categories of numbers.
pub uninterp spec fn numeric_beyond_ascii(c: char) -> bool;

/// The character is a number.
pub open spec fn is_numeric(c: char) -> bool {
    if (c as u32) < 128 {
        text::is_digit(c)
    } else {
        numeric_beyond_ascii(c)
    }
}

/// `char::is_numeric`: of the ASCII characters, the digits; of the others, a
/// function of the character alone.
pub assume_specification[ char::is_numeric ](c: char) -> (r: bool)
    ensures
        r == (if (c as u32) < 128 {
            text::is_digit(c)
        } else {
            numeric_beyond_ascii(c)
        }),
;

/// The directories in which an image of a stored instance is looked for.
pub struct ImagePlaces {
    /// The directory of the instance on its page.
    pub present: String,
    /// The directory of the instance before profiles had pages.
    pub legacy: String,
}

/// The directory of an instance before profiles had pages.
pub open spec fn legacy_images(
    config_dir: Seq<char>,
    device: Seq<char>,
    profile: Seq<char>,
    c: DiskContextView,
) -> Seq<char> {
    shared::joined(relocate::profile_images(config_dir, device, profile), place_text(c))
}

/// The directories in which an image of a stored instance is looked for.
pub fn image_places(
    config_dir: &str,
    device: &str,
    profile: &str,
    page: &str,
    context: &DiskActionContext,
) -> (r: ImagePlaces)
    ensures
        r.present@ == instances::instance_images(
            config_dir@,
            at_place(context@, device@, profile@, page@),
        ),
        r.legacy@ == legacy_images(config_dir@, device@, profile@, context@),
{
    let whole = context.into_action_context(device, profile, page);
    let of_profile = profile_images_dir(config_dir, device, profile);
    let name = context.to_text();
    ImagePlaces {
        present: instance_images_dir(config_dir, &whole),
        legacy: join(&of_profile, &name),
    }
}

/// The image of a state as it is read: a name that begins with a number is that
/// of a file of the instance, on its page where that file exists.
pub open spec fn loaded_image(
    image: Seq<char>,
    present: Seq<char>,
    legacy: Seq<char>,
    config_dir: Seq<char>,
    existing: Seq<Seq<char>>,
) -> Seq<char> {
    let im = shared::starterpack_path(image);
    if im.len() > 0 && is_numeric(im[0]) {
        if existing.contains(shared::joined(present, im)) {
            shared::joined(present, im)
        } else {
            shared::joined(legacy, im)
        }
    } else {
        reconstructed(im, config_dir)
    }
}

fn load_image(image: &str, places: &ImagePlaces, config_dir: &str, existing: &Vec<String>) -> (r:
    String)
    ensures
        r@ == loaded_image(
            image@,
            places.present@,
            places.legacy@,
            config_dir@,
            text::texts(existing@),
        ),
{
    let mut im = owned(image);
    normalize_starterpack_paths(&mut im);
    let v = chars_of(&im);
    if v.len() > 0 && v[0].is_numeric() {
        let present = join(&places.present, &im);
        if texts_contain(existing, &present) {
            present
        } else {
            join(&places.legacy, &im)
        }
    } else {
        reconstruct(&im, config_dir)
    }
}

/// The states as they are read.
pub open spec fn loaded_states(
    s: Seq<StateView>,
    present: Seq<char>,
    legacy: Seq<char>,
    config_dir: Seq<char>,
    existing: Seq<Seq<char>>,
) -> Seq<StateView> {
    Seq::new(
        s.len(),
        |k: int|
            StateView {
                image: loaded_image(s[k].image, present, legacy, config_dir, existing),
                ..s[k]
            },
    )
}

fn load_states(
    states: &Vec<ActionState>,
    places: &ImagePlaces,
    config_dir: &str,
    existing: &Vec<String>,
) -> (r: Vec<ActionState>)
    ensures
        shared::states_view(r@) == loaded_states(
            shared::states_view(states@),
            places.present@,
            places.legacy@,
            config_dir@,
            text::texts(existing@),
        ),
{
    let mut out: Vec<ActionState> = Vec::new();
    let mut k: usize = 0;
    while k < states.len()
        invariant
            k <= states@.len(),
            out@.len() == k,
            forall|j: int|
                0 <= j < k ==> (#[trigger] out@[j])@ == (StateView {
                    image: loaded_image(
                        states@[j].image@,
                        places.present@,
                        places.legacy@,
                        config_dir@,
                        text::texts(existing@),
                    ),
                    ..states@[j]@
                }),
        decreases states@.len() - k,
    {
        let mut st = states[k].copy();
        st.image = load_image(&states[k].image, places, config_dir, existing);
        out.push(st);
        k = k + 1;
    }
    assert(shared::states_view(out@) =~= loaded_states(
        shared::states_view(states@),
        places.present@,
        places.legacy@,
        config_dir@,
        text::texts(existing@),
    ));
    out
}

/// The action as it is read, with its present names.
pub open spec fn loaded_action(a: ActionView, config_dir: Seq<char>) -> ActionView {
    ActionView {
        states: Seq::new(
            a.states.len(),
            |k: int|
                StateView { image: read_path(a.states[k].image, config_dir), ..a.states[k] },
        ),
        icon: read_path(a.icon, config_dir),
        property_inspector: read_path(a.property_inspector, config_dir),
        ..instances::normalized_action(a)
    }
}

fn load_action(a: &Action, config_dir: &str) -> (r: Action)
    ensures
        r@ == loaded_action(a@, config_dir@),
{
    let mut states: Vec<ActionState> = Vec::new();
    let mut k: usize = 0;
    while k < a.states.len()
        invariant
            k <= a.states@.len(),
            states@.len() == k,
            forall|j: int|
                0 <= j < k ==> (#[trigger] states@[j])@ == (StateView {
                    image: read_path(a.states@[j].image@, config_dir@),
                    ..a.states@[j]@
                }),
        decreases a.states@.len() - k,
    {
        let mut st = a.states[k].copy();
        st.image = read_stored_path(&a.states[k].image, config_dir);
        states.push(st);
        k = k + 1;
    }
    let mut out = a.copy();
    out.states = states;
    out.icon = read_stored_path(&a.icon, config_dir);
    out.property_inspector = read_stored_path(&a.property_inspector, config_dir);
    normalize_builtin_action(&mut out.plugin, &mut out.uuid);
    normalize_starterpack_action(&mut out.plugin, &mut out.uuid);
    assert(out@.states =~= loaded_action(a@, config_dir@).states);
    out
}

/// A stored instance as it is read, given the files that exist.
pub open spec fn loaded(
    i: DiskInstanceView,
    config_dir: Seq<char>,
    device: Seq<char>,
    profile: Seq<char>,
    page: Seq<char>,
    existing: Seq<Seq<char>>,
) -> InstanceView
    decreases i,
{
    let context = at_place(i.context, device, profile, page);
    InstanceView {
        action: loaded_action(i.action, config_dir),
        context,
        states: loaded_states(
            i.states,
            instances::instance_images(config_dir, context),
            legacy_images(config_dir, device, profile, i.context),
            config_dir,
            existing,
        ),
        current_state: i.current_state,
        settings: i.settings,
        children: match i.children {
            Some(c) => Some(
                Seq::new(
                    c.len(),
                    |k: int|
                        if 0 <= k < c.len() {
                            loaded(c[k], config_dir, device, profile, page, existing)
                        } else {
                            arbitrary()
                        },
                ),
            ),
            None => None,
        },
    }
}

/// A stored instance as it is read, given the files that exist.
pub fn load_instance(
    value: &DiskActionInstance,
    config_dir: &str,
    device: &str,
    profile: &str,
    page: &str,
    existing: &Vec<String>,
) -> (r: ActionInstance)
    ensures
        r@ == loaded(value@, config_dir@, device@, profile@, page@, text::texts(existing@)),
    decreases value,
{
    broadcast use {shared::lemma_instance_view, lemma_disk_view};

    let places = image_places(config_dir, device, profile, page, &value.context);
    let ghost goal = loaded(
        value@,
        config_dir@,
        device@,
        profile@,
        page@,
        text::texts(existing@),
    );
    let children = match &value.children {
        Some(c) => {
            let mut out: Vec<ActionInstance> = Vec::new();
            let mut i: usize = 0;
            while i < c.len()
                invariant
                    i <= c@.len(),
                    value.children == Some(*c),
                    out@.len() == i,
                    forall|k: int|
                        0 <= k < i ==> (#[trigger] out@[k])@ == loaded(
                            c@[k]@,
                            config_dir@,
                            device@,
                            profile@,
                            page@,
                            text::texts(existing@),
                        ),
                decreases c@.len() - i,
            {
                assert(decreases_to!(value => value.children));
                assert(decreases_to!(value.children => value.children->0));
                assert(decreases_to!(c => c@));
                assert(decreases_to!(c@ => c@[i as int]));
                out.push(load_instance(&c[i], config_dir, device, profile, page, existing));
                i = i + 1;
            }
            assert(shared::instances_view(out@) =~= goal.children->0);
            Some(out)
        },
        None => None,
    };
    ActionInstance {
        action: load_action(&value.action, config_dir),
        context: value.context.into_action_context(device, profile, page),
        states: load_states(&value.states, &places, config_dir, existing),
        current_state: value.current_state,
        settings: value.settings.copy(),
        children,
    }
}

// ---------------------------------------------------------------------------
// Pages and profiles
// ---------------------------------------------------------------------------

/// The models of stored slots.
pub open spec fn disk_slots(s: Seq<Option<DiskActionInstance>>) -> Seq<Option<DiskInstanceView>> {
    Seq::new(
        s.len(),
        |k: int|
            match s[k] {
                Some(i) => Some(i@),
                None => None,
            },
    )
}

/// A page as it is stored.
pub struct DiskPage {
    pub id: String,
    pub keys: Vec<Option<DiskActionInstance>>,
    pub sliders: Vec<Option<DiskActionInstance>>,
    pub encoder_screen_background: Option<String>,
    pub encoder_screen_crop: Option<EncoderScreenCrop>,
}

/// The model of a `DiskPage`.
pub struct DiskPageView {
    pub id: Seq<char>,
    pub keys: Seq<Option<DiskInstanceView>>,
    pub sliders: Seq<Option<DiskInstanceView>>,
    pub encoder_screen_background: Option<Seq<char>>,
    pub encoder_screen_crop: Option<EncoderScreenCrop>,
}

impl View for DiskPage {
    type V = DiskPageView;

    open spec fn view(&self) -> DiskPageView {
        DiskPageView {
            id: self.id@,
            keys: disk_slots(self.keys@),
            sliders: disk_slots(self.sliders@),
            encoder_screen_background: text::opt_text(self.encoder_screen_background),
            encoder_screen_crop: self.encoder_screen_crop,
        }
    }
}

/// The instances in the slots can be stored.
pub open spec fn storable_slots(s: Seq<Option<InstanceView>>) -> bool {
    forall|k: int| 0 <= k < s.len() && #[trigger] s[k] is Some ==> storable(s[k]->0)
}

/// The slots as they are stored.
pub open spec fn stored_slots(
    s: Seq<Option<InstanceView>>,
    config_dir: Seq<char>,
    written: Seq<Seq<char>>,
) -> Seq<Option<DiskInstanceView>> {
    Seq::new(
        s.len(),
        |k: int|
            match s[k] {
                Some(i) => Some(stored(i, config_dir, written)),
                None => None,
            },
    )
}

fn store_slots(slots: &Vec<Option<ActionInstance>>, config_dir: &str, written: &Vec<String>) -> (r:
    Vec<Option<DiskActionInstance>>)
    requires
        storable_slots(shared::slots_view(slots@)),
    ensures
        disk_slots(r@) == stored_slots(
            shared::slots_view(slots@),
            config_dir@,
            text::texts(written@),
        ),
{
    let ghost models = shared::slots_view(slots@);
    let ghost goal = stored_slots(models, config_dir@, text::texts(written@));
    let mut out: Vec<Option<DiskActionInstance>> = Vec::new();
    let mut k: usize = 0;
    while k < slots.len()
        invariant
            k <= slots@.len(),
            out@.len() == k,
            models == shared::slots_view(slots@),
            storable_slots(models),
            goal == stored_slots(models, config_dir@, text::texts(written@)),
            forall|j: int|
                #![trigger out@[j]]
                0 <= j < k ==> disk_slots(out@)[j] == goal[j],
        decreases slots@.len() - k,
    {
        assert(models[k as int] == shared::slot_view(slots@[k as int]));
        let ghost before = out@;
        let next = match &slots[k] {
            Some(i) => Some(store_instance(i, config_dir, written)),
            None => None,
        };
        out.push(next);
        assert forall|j: int| 0 <= j < k + 1 implies disk_slots(#[trigger] out@)[j] == goal[j] by {
            if j < k {
                assert(out@[j] == before[j]);
                assert(disk_slots(before)[j] == goal[j]);
            }
        }
        k = k + 1;
    }
    assert(disk_slots(out@) =~= goal);
    out
}

/// The slots as they are read.
pub open spec fn loaded_slots(
    s: Seq<Option<DiskInstanceView>>,
    config_dir: Seq<char>,
    device: Seq<char>,
    profile: Seq<char>,
    page: Seq<char>,
    existing: Seq<Seq<char>>,
) -> Seq<Option<InstanceView>> {
    Seq::new(
        s.len(),
        |k: int|
            match s[k] {
                Some(i) => Some(loaded(i, config_dir, device, profile, page, existing)),
                None => None,
            },
    )
}

fn load_slots(
    slots: &Vec<Option<DiskActionInstance>>,
    config_dir: &str,
    device: &str,
    profile: &str,
    page: &str,
    existing: &Vec<String>,
) -> (r: Vec<Option<ActionInstance>>)
    ensures
        shared::slots_view(r@) == loaded_slots(
            disk_slots(slots@),
            config_dir@,
            device@,
            profile@,
            page@,
            text::texts(existing@),
        ),
{
    let ghost models = disk_slots(slots@);
    let ghost goal = loaded_slots(
        models,
        config_dir@,
        device@,
        profile@,
        page@,
        text::texts(existing@),
    );
    let mut out: Vec<Option<ActionInstance>> = Vec::new();
    let mut k: usize = 0;
    while k < slots.len()
        invariant
            k <= slots@.len(),
            out@.len() == k,
            models == disk_slots(slots@),
            goal == loaded_slots(
                models,
                config_dir@,
                device@,
                profile@,
                page@,
                text::texts(existing@),
            ),
            forall|j: int|
                0 <= j < k ==> shared::slot_view(#[trigger] out@[j]) == goal[j],
        decreases slots@.len() - k,
    {
        let next = match &slots[k] {
            Some(i) => Some(load_instance(i, config_dir, device, profile, page, existing)),
            None => None,
        };
        out.push(next);
        k = k + 1;
    }
    assert(shared::slots_view(out@) =~= goal);
    out
}

/// A background as it is stored: relative to the configuration directory, where
/// it lies below it.
pub open spec fn stored_background(value: Option<Seq<char>>, config_dir: Seq<char>) -> Option<
    Seq<char>,
> {
    match value {
        Some(v) => match path::relative_path(v, config_dir) {
            Some(rel) => Some(rel),
            None => Some(v),
        },
        None => None,
    }
}

/// A background as it is read.
pub open spec fn loaded_background(value: Option<Seq<char>>, config_dir: Seq<char>) -> Option<
    Seq<char>,
> {
    match value {
        Some(v) => Some(reconstructed(v, config_dir)),
        None => None,
    }
}

/// The instances of a page can be stored.
pub open spec fn storable_page(p: PageView) -> bool {
    storable_slots(p.keys) && storable_slots(p.sliders)
}

/// A page as it is stored.
pub open spec fn stored_page(
    p: PageView,
    config_dir: Seq<char>,
    written: Seq<Seq<char>>,
) -> DiskPageView {
    DiskPageView {
        id: p.id,
        keys: stored_slots(p.keys, config_dir, written),
        sliders: stored_slots(p.sliders, config_dir, written),
        encoder_screen_background: stored_background(p.encoder_screen_background, config_dir),
        encoder_screen_crop: p.encoder_screen_crop,
    }
}

/// A stored page as it is read.
pub open spec fn loaded_page(
    p: DiskPageView,
    config_dir: Seq<char>,
    device: Seq<char>,
    profile: Seq<char>,
    existing: Seq<Seq<char>>,
) -> PageView {
    PageView {
        id: p.id,
        keys: loaded_slots(p.keys, config_dir, device, profile, p.id, existing),
        sliders: loaded_slots(p.sliders, config_dir, device, profile, p.id, existing),
        encoder_screen_background: loaded_background(p.encoder_screen_background, config_dir),
        encoder_screen_crop: p.encoder_screen_crop,
    }
}

impl DiskPage {
    /// A page as it is stored, given the files that have been written.
    pub fn from_page(value: &Page, config_dir: &str, written: &Vec<String>) -> (r: DiskPage)
        requires
            storable_page(value@),
        ensures
            r@ == stored_page(value@, config_dir@, text::texts(written@)),
    {
        let background = match &value.encoder_screen_background {
            Some(v) => match relative_to(v, config_dir) {
                Some(rel) => Some(rel),
                None => Some(v.clone()),
            },
            None => None,
        };
        DiskPage {
            id: value.id.clone(),
            keys: store_slots(&value.keys, config_dir, written),
            sliders: store_slots(&value.sliders, config_dir, written),
            encoder_screen_background: background,
            encoder_screen_crop: value.encoder_screen_crop,
        }
    }

    /// A stored page as it is read, given the files that exist.
    pub fn into_page(&self, config_dir: &str, device: &str, profile: &str, existing: &Vec<String>) -> (r:
        Page)
        ensures
            r@ == loaded_page(self@, config_dir@, device@, profile@, text::texts(existing@)),
    {
        let background = match &self.encoder_screen_background {
            Some(v) => Some(reconstruct(v, config_dir)),
            None => None,
        };
        Page {
            id: self.id.clone(),
            keys: load_slots(&self.keys, config_dir, device, profile, &self.id, existing),
            sliders: load_slots(&self.sliders, config_dir, device, profile, &self.id, existing),
            encoder_screen_background: background,
            encoder_screen_crop: self.encoder_screen_crop,
        }
    }
}

/// A profile as it is stored.
pub struct DiskProfileV2 {
    pub selected_page: Option<String>,
    pub pages: Vec<DiskPage>,
}

/// The model of a `DiskProfileV2`.
pub struct DiskProfileView {
    pub selected_page: Option<Seq<char>>,
    pub pages: Seq<DiskPageView>,
}

impl View for DiskProfileV2 {
    type V = DiskProfileView;

    open spec fn view(&self) -> DiskProfileView {
        DiskProfileView {
            selected_page: text::opt_text(self.selected_page),
            pages: disk_pages(self.pages@),
        }
    }
}

/// The models of stored pages.
pub open spec fn disk_pages(s: Seq<DiskPage>) -> Seq<DiskPageView> {
    Seq::new(s.len(), |k: int| s[k]@)
}

/// A profile as it is stored.
pub open spec fn stored_profile(
    p: ProfileView,
    config_dir: Seq<char>,
    written: Seq<Seq<char>>,
) -> DiskProfileView {
    DiskProfileView {
        selected_page: Some(p.selected_page),
        pages: Seq::new(p.pages.len(), |k: int| stored_page(p.pages[k], config_dir, written)),
    }
}

/// A page without anything on it.
pub open spec fn empty_page() -> PageView {
    PageView {
        id: "1"@,
        keys: Seq::empty(),
        sliders: Seq::empty(),
        encoder_screen_background: None,
        encoder_screen_crop: None,
    }
}

/// A stored profile as it is read: it has a page, and page 1 is selected where
/// it does not say.
pub open spec fn loaded_profile(
    p: DiskProfileView,
    config_dir: Seq<char>,
    device: Seq<char>,
    id: Seq<char>,
    existing: Seq<Seq<char>>,
) -> ProfileView {
    ProfileView {
        id,
        pages: if p.pages.len() == 0 {
            seq![empty_page()]
        } else {
            Seq::new(
                p.pages.len(),
                |k: int| loaded_page(p.pages[k], config_dir, device, id, existing),
            )
        },
        selected_page: match p.selected_page {
            Some(s) => s,
            None => "1"@,
        },
    }
}

/// All pages of a profile can be stored.
pub open spec fn storable_profile(p: ProfileView) -> bool {
    forall|k: int| 0 <= k < p.pages.len() ==> storable_page(#[trigger] p.pages[k])
}

impl DiskProfileV2 {
    /// A profile as it is stored, given the files that have been written.
    pub fn from_profile(value: &Profile, config_dir: &str, written: &Vec<String>) -> (r:
        DiskProfileV2)
        requires
            storable_profile(value@),
        ensures
            r@ == stored_profile(value@, config_dir@, text::texts(written@)),
    {
        let ghost models = value@.pages;
        let mut pages: Vec<DiskPage> = Vec::new();
        let mut k: usize = 0;
        while k < value.pages.len()
            invariant
                k <= value.pages@.len(),
                pages@.len() == k,
                models == value@.pages,
                models == shared::pages_view(value.pages@),
                storable_profile(value@),
                forall|j: int|
                    0 <= j < k ==> (#[trigger] pages@[j])@ == stored_page(
                        models[j],
                        config_dir@,
                        text::texts(written@),
                    ),
            decreases value.pages@.len() - k,
        {
            assert(models[k as int] == value.pages@[k as int]@);
            assert(storable_page(value@.pages[k as int]));
            pages.push(DiskPage::from_page(&value.pages[k], config_dir, written));
            k = k + 1;
        }
        assert(disk_pages(pages@) =~= stored_profile(
            value@,
            config_dir@,
            text::texts(written@),
        ).pages);
        DiskProfileV2 { selected_page: Some(value.selected_page.clone()), pages }
    }

    /// A stored profile as it is read, given the files that exist.
    pub fn into_profile(&self, config_dir: &str, device: &str, id: &str, existing: &Vec<String>) -> (r:
        Profile)
        ensures
            r@ == loaded_profile(self@, config_dir@, device@, id@, text::texts(existing@)),
    {
        let ghost models = self@.pages;
        let mut pages: Vec<Page> = Vec::new();
        let mut k: usize = 0;
        while k < self.pages.len()
            invariant
                k <= self.pages@.len(),
                pages@.len() == k,
                models == disk_pages(self.pages@),
                forall|j: int|
                    0 <= j < k ==> (#[trigger] pages@[j])@ == loaded_page(
                        models[j],
                        config_dir@,
                        device@,
                        id@,
                        text::texts(existing@),
                    ),
            decreases self.pages@.len() - k,
        {
            assert(models[k as int] == self.pages@[k as int]@);
            pages.push(self.pages[k].into_page(config_dir, device, id, existing));
            k = k + 1;
        }
        if pages.len() == 0 {
            pages.push(
                Page {
                    id: owned("1"),
                    keys: Vec::new(),
                    sliders: Vec::new(),
                    encoder_screen_background: None,
                    encoder_screen_crop: None,
                },
            );
            assert(pages@[0]@.keys =~= empty_page().keys);
            assert(pages@[0]@.sliders =~= empty_page().sliders);
        }
        let selected_page = match &self.selected_page {
            Some(s) => s.clone(),
            None => owned("1"),
        };
        assert(shared::pages_view(pages@) =~= loaded_profile(
            self@,
            config_dir@,
            device@,
            id@,
            text::texts(existing@),
        ).pages);
        Profile { id: owned(id), pages, selected_page }
    }
}

/// A profile as it was stored before profiles had pages.
pub struct DiskProfileLegacy {
    pub keys: Vec<Option<DiskActionInstance>>,
    pub sliders: Vec<Option<DiskActionInstance>>,
    pub encoder_screen_background: Option<String>,
}

impl DiskProfileLegacy {
    /// A profile that was stored before profiles had pages: its contents are on
    /// page 1.
    pub fn into_profile(&self, config_dir: &str, device: &str, id: &str, existing: &Vec<String>) -> (r:
        Profile)
        ensures
            r@.id == id@,
            r@.selected_page == "1"@,
            r@.pages == seq![
                PageView {
                    id: "1"@,
                    keys: loaded_slots(
                        disk_slots(self.keys@),
                        config_dir@,
                        device@,
                        id@,
                        "1"@,
                        text::texts(existing@),
                    ),
                    sliders: loaded_slots(
                        disk_slots(self.sliders@),
                        config_dir@,
                        device@,
                        id@,
                        "1"@,
                        text::texts(existing@),
                    ),
                    encoder_screen_background: text::opt_text(self.encoder_screen_background),
                    encoder_screen_crop: None,
                },
            ],
    {
        let page = Page {
            id: owned("1"),
            keys: load_slots(&self.keys, config_dir, device, id, "1", existing),
            sliders: load_slots(&self.sliders, config_dir, device, id, "1", existing),
            encoder_screen_background: clone_opt(&self.encoder_screen_background),
            encoder_screen_crop: None,
        };
        let ghost model = page@;
        let mut pages: Vec<Page> = Vec::new();
        pages.push(page);
        assert(shared::pages_view(pages@) =~= seq![model]);
        Profile { id: owned(id), pages, selected_page: owned("1") }
    }
}

/// The device and the id of the profile that a file holds: of its path below
/// the configuration directory, the second component and those behind it,
/// without the five characters of the extension.
pub open spec fn located(config_dir: Seq<char>, file: Seq<char>) -> (Seq<char>, Seq<char>) {
    let c = path::path_components(path::relative_path(file, config_dir)->0);
    let rest = text::join_with(c.skip(2), '/');
    (c[1], rest.take(rest.len() - 5))
}

/// A file below the configuration directory, at least two levels down, that has
/// an extension of four ASCII characters.
pub open spec fn is_profile_file(config_dir: Seq<char>, file: Seq<char>) -> bool {
    let c = path::path_components(path::relative_path(file, config_dir)->0);
    let rest = text::join_with(c.skip(2), '/');
    &&& path::relative_path(file, config_dir) is Some
    &&& c.len() > 2
    &&& rest.len() >= 5
    &&& text::all_ascii(rest.skip(rest.len() - 5))
}

/// The device and the id of the profile that a file holds.
pub fn locate_profile(config_dir: &str, file: &str) -> (r: (String, String))
    requires
        is_profile_file(config_dir@, file@),
    ensures
        (r.0@, r.1@) == located(config_dir@, file@),
{
    match relative_to(file, config_dir) {
        Some(rel) => {
            let c = components_of(&rel);
            let ghost parts = text::texts(c@);
            assert(parts[1] == c@[1]@);
            let mut rest = c[2].clone();
            assert(parts[2] == c@[2]@);
            let mut k: usize = 3;
            let ghost tail = parts.skip(2);
            proof {
                assert(tail.take(1) =~= seq![parts[2]]);
                reveal_with_fuel(text::join_with, 2);
                assert(text::join_with(tail.take(1), '/') =~= parts[2]);
            }
            while k < c.len()
                invariant
                    3 <= k <= c@.len(),
                    parts == text::texts(c@),
                    tail == parts.skip(2),
                    rest@ == text::join_with(tail.take(k - 2), '/'),
                decreases c@.len() - k,
            {
                assert(parts[k as int] == c@[k as int]@);
                proof {
                    lemma_join_with_push(tail.take(k - 2), parts[k as int], '/');
                    assert(tail.take(k - 1) =~= tail.take(k - 2).push(parts[k as int]));
                }
                let ghost before = rest@;
                rest.push('/');
                rest.append(&c[k]);
                assert(rest@ =~= before + seq!['/'] + parts[k as int]);
                k = k + 1;
            }
            assert(tail.take(k - 2) =~= tail);
            let v = chars_of(&rest);
            let n: usize = v.len();
            let id = text_of_range(&v, 0, n - 5);
            assert(id@ =~= rest@.take(rest@.len() - 5));
            (c[1].clone(), id)
        },
        None => (String::new(), String::new()),
    }
}

proof fn lemma_join_with_push(parts: Seq<Seq<char>>, last: Seq<char>, c: char)
    requires
        parts.len() > 0,
    ensures
        text::join_with(parts.push(last), c) == text::join_with(parts, c) + seq![c] + last,
    decreases parts.len(),
{
    let all = parts.push(last);
    if parts.len() == 1 {
        reveal_with_fuel(text::join_with, 3);
        assert(all.drop_first() =~= seq![last]);
        assert(text::join_with(all, c) =~= text::join_with(parts, c) + seq![c] + last);
    } else {
        lemma_join_with_push(parts.drop_first(), last, c);
        assert(all.drop_first() =~= parts.drop_first().push(last));
        assert(text::join_with(all, c) =~= text::join_with(parts, c) + seq![c] + last);
    }
}

// ---------------------------------------------------------------------------
// What is read of what was stored
// ---------------------------------------------------------------------------

/// The file of a profile is found to hold that profile.
#[verifier::spinoff_prover]
#[verifier::rlimit(30)]
pub proof fn law_profile_file_is_found(config_dir: Seq<char>, device: Seq<char>, id: Seq<char>)
    requires
        config_dir.len() > 0,
        config_dir.last() != '/',
        device.len() > 0,
        !device.contains('/'),
        device != seq!['.'],
        path::is_plain(id + ".json"@),
    ensures
        is_profile_file(config_dir, migration::profile_path(config_dir, device, id)),
        located(config_dir, migration::profile_path(config_dir, device, id)) == (device, id),
{
    reveal_strlit("profiles");
    reveal_strlit(".json");
    let name = id + ".json"@;
    let below = device + seq!['/'] + name;
    let p = "profiles"@ + seq!['/'] + below;
    path::lemma_plain_below(device, name);
    path::lemma_plain_below("profiles"@, below);
    path::lemma_plain_components(p);
    path::law_joined_path_is_relative(config_dir, p);
    path::law_joined_path_is_relative(config_dir, name);
    assert(device[0] != '/') by {
        assert(device.contains(device[0]));
    }
    assert(device.last() != '/') by {
        assert(device.contains(device[device.len() - 1]));
    }
    let profiles = shared::joined(config_dir, "profiles"@);
    assert(profiles =~= config_dir + seq!['/'] + "profiles"@);
    assert(profiles.last() == 's');
    let of_device = shared::joined(profiles, device);
    assert(of_device == profiles + seq!['/'] + device);
    assert(of_device.last() == device.last());
    path::law_joined_path_is_relative(of_device, name);
    let file = migration::profile_path(config_dir, device, id);
    assert(file =~= config_dir + seq!['/'] + p);
    let c = path::path_components(p);
    let pieces = text::split_on(name, '/');
    assert(c =~= seq!["profiles"@, device] + pieces);
    assert(c.skip(2) =~= pieces);
    text::lemma_split_join(name, '/');
    text::lemma_index_of_char(name, '/');
    text::lemma_split_on_step(name, '/');
    assert(name.skip(name.len() - 5) =~= ".json"@);
    assert(name.take(name.len() - 5) =~= id);
}

/// A path that stays as it is when it is stored and read: one below the
/// configuration directory, one of a file elsewhere, or a value that is no
/// path. It is no file of its instance whose name begins with a number, and does
/// not name the legacy starter pack.
pub open spec fn settled_path(
    value: Seq<char>,
    image_dir: Seq<char>,
    config_dir: Seq<char>,
) -> bool {
    &&& own_name(value, image_dir) is None
    &&& match path::relative_path(value, config_dir) {
        Some(rel) => shared::joined(config_dir, rel) == value && !is_no_path(rel)
            && shared::starterpack_path(rel) == rel,
        None => shared::starterpack_path(value) == value && (is_no_path(value) || value[0]
            == '/'),
    }
}

/// An image of a state that stays as it is when it is stored and read: a file
/// among the images of its instance that exists and whose name begins with a
/// number, or another settled path, whether among those images or not, whose
/// stored form does not begin with one.
pub open spec fn settled_image(
    value: Seq<char>,
    image_dir: Seq<char>,
    config_dir: Seq<char>,
    existing: Seq<Seq<char>>,
) -> bool {
    &&& text::trimmed(value) != "data:"@
    &&& !"data:"@.is_prefix_of(value)
    &&& match own_name(value, image_dir) {
        Some(rel) => shared::joined(image_dir, rel) == value && existing.contains(value)
            && shared::starterpack_path(rel) == rel,
        None => settled_path(value, image_dir, config_dir) && {
            let rel = normalised(value, image_dir, config_dir);
            rel.len() == 0 || !is_numeric(rel[0])
        },
    }
}

/// An instance that stays as it is when it is stored and read: it stands on the
/// page that it is stored with, has the present names, and its paths are
/// settled; so are its children.
pub open spec fn settled(
    i: InstanceView,
    config_dir: Seq<char>,
    device: Seq<char>,
    profile: Seq<char>,
    page: Seq<char>,
    existing: Seq<Seq<char>>,
) -> bool
    decreases i,
{
    let dir = instances::instance_images(config_dir, i.context);
    &&& i.context.device == device
    &&& i.context.profile == profile
    &&& i.context.page == page
    &&& instances::normalized_action(i.action) == i.action
    &&& settled_path(i.action.icon, dir, config_dir)
    &&& settled_path(i.action.property_inspector, dir, config_dir)
    &&& forall|k: int|
        0 <= k < i.action.states.len() ==> settled_path(
            (#[trigger] i.action.states[k]).image,
            dir,
            config_dir,
        )
    &&& forall|k: int|
        0 <= k < i.states.len() ==> settled_image(
            (#[trigger] i.states[k]).image,
            dir,
            config_dir,
            existing,
        )
    &&& match i.children {
        Some(c) => forall|k: int|
            0 <= k < c.len() ==> settled(
                #[trigger] c[k],
                config_dir,
                device,
                profile,
                page,
                existing,
            ),
        None => true,
    }
}

proof fn lemma_path_reads_back(value: Seq<char>, image_dir: Seq<char>, config_dir: Seq<char>)
    requires
        settled_path(value, image_dir, config_dir),
    ensures
        read_path(normalised(value, image_dir, config_dir), config_dir) == value,
{
}

proof fn lemma_image_reads_back(
    value: Seq<char>,
    index: int,
    image_dir: Seq<char>,
    legacy: Seq<char>,
    config_dir: Seq<char>,
    written: Seq<Seq<char>>,
    existing: Seq<Seq<char>>,
)
    requires
        settled_image(value, image_dir, config_dir, existing),
    ensures
        loaded_image(
            stored_image(value, index, image_dir, config_dir, written),
            image_dir,
            legacy,
            config_dir,
            existing,
        ) == value,
{
}

/// An instance that is stored and read again is the same.
pub proof fn law_instance_reads_back(
    i: InstanceView,
    config_dir: Seq<char>,
    device: Seq<char>,
    profile: Seq<char>,
    page: Seq<char>,
    written: Seq<Seq<char>>,
    existing: Seq<Seq<char>>,
)
    requires
        settled(i, config_dir, device, profile, page, existing),
    ensures
        loaded(
            stored(i, config_dir, written),
            config_dir,
            device,
            profile,
            page,
            existing,
        ) == i,
    decreases i,
{
    let dir = instances::instance_images(config_dir, i.context);
    let legacy = legacy_images(config_dir, device, profile, place_of(i.context));
    let d = stored(i, config_dir, written);
    let r = loaded(d, config_dir, device, profile, page, existing);
    assert(r.context == i.context);
    lemma_path_reads_back(i.action.icon, dir, config_dir);
    lemma_path_reads_back(i.action.property_inspector, dir, config_dir);
    assert forall|k: int| 0 <= k < i.action.states.len() implies r.action.states[k]
        == i.action.states[k] by {
        lemma_path_reads_back(i.action.states[k].image, dir, config_dir);
    }
    assert(r.action.states =~= i.action.states);
    assert(r.action == i.action);
    assert forall|k: int| 0 <= k < i.states.len() implies r.states[k] == i.states[k] by {
        lemma_image_reads_back(
            i.states[k].image,
            k,
            dir,
            legacy,
            config_dir,
            written,
            existing,
        );
    }
    assert(r.states =~= i.states);
    match i.children {
        Some(c) => {
            assert forall|k: int| 0 <= k < c.len() implies r.children->0[k] == c[k] by {
                law_instance_reads_back(
                    c[k],
                    config_dir,
                    device,
                    profile,
                    page,
                    written,
                    existing,
                );
            }
            assert(r.children->0 =~= c);
        },
        None => {},
    }
}

/// The instances in slots stay as they are when they are stored and read.
pub open spec fn settled_slots(
    s: Seq<Option<InstanceView>>,
    config_dir: Seq<char>,
    device: Seq<char>,
    profile: Seq<char>,
    page: Seq<char>,
    existing: Seq<Seq<char>>,
) -> bool {
    forall|k: int|
        0 <= k < s.len() && #[trigger] s[k] is Some ==> settled(
            s[k]->0,
            config_dir,
            device,
            profile,
            page,
            existing,
        )
}

/// A background stays as it is when it is stored and read.
pub open spec fn settled_background(value: Option<Seq<char>>, config_dir: Seq<char>) -> bool {
    match value {
        Some(v) => match path::relative_path(v, config_dir) {
            Some(rel) => shared::joined(config_dir, rel) == v && !is_no_path(rel),
            None => is_no_path(v) || v[0] == '/',
        },
        None => true,
    }
}

/// A profile that stays as it is when it is stored and read: it has a page, and
/// what stands on its pages is settled.
pub open spec fn settled_profile(
    p: ProfileView,
    config_dir: Seq<char>,
    device: Seq<char>,
    existing: Seq<Seq<char>>,
) -> bool {
    &&& p.pages.len() > 0
    &&& forall|k: int|
        #![trigger p.pages[k]]
        0 <= k < p.pages.len() ==> settled_slots(
            p.pages[k].keys,
            config_dir,
            device,
            p.id,
            p.pages[k].id,
            existing,
        ) && settled_slots(
            p.pages[k].sliders,
            config_dir,
            device,
            p.id,
            p.pages[k].id,
            existing,
        ) && settled_background(p.pages[k].encoder_screen_background, config_dir)
}

proof fn lemma_slots_read_back(
    s: Seq<Option<InstanceView>>,
    config_dir: Seq<char>,
    device: Seq<char>,
    profile: Seq<char>,
    page: Seq<char>,
    written: Seq<Seq<char>>,
    existing: Seq<Seq<char>>,
)
    requires
        settled_slots(s, config_dir, device, profile, page, existing),
    ensures
        loaded_slots(
            stored_slots(s, config_dir, written),
            config_dir,
            device,
            profile,
            page,
            existing,
        ) == s,
{
    let r = loaded_slots(
        stored_slots(s, config_dir, written),
        config_dir,
        device,
        profile,
        page,
        existing,
    );
    assert forall|k: int| 0 <= k < s.len() implies r[k] == s[k] by {
        if s[k] is Some {
            law_instance_reads_back(
                s[k]->0,
                config_dir,
                device,
                profile,
                page,
                written,
                existing,
            );
        }
    }
    assert(r =~= s);
}

/// A profile that is stored and read again is the same.
pub proof fn law_profile_reads_back(
    p: ProfileView,
    config_dir: Seq<char>,
    device: Seq<char>,
    written: Seq<Seq<char>>,
    existing: Seq<Seq<char>>,
)
    requires
        settled_profile(p, config_dir, device, existing),
    ensures
        loaded_profile(
            stored_profile(p, config_dir, written),
            config_dir,
            device,
            p.id,
            existing,
        ) == p,
{
    let r = loaded_profile(
        stored_profile(p, config_dir, written),
        config_dir,
        device,
        p.id,
        existing,
    );
    assert forall|k: int| 0 <= k < p.pages.len() implies r.pages[k] == p.pages[k] by {
        let page = p.pages[k];
        lemma_slots_read_back(
            page.keys,
            config_dir,
            device,
            p.id,
            page.id,
            written,
            existing,
        );
        lemma_slots_read_back(
            page.sliders,
            config_dir,
            device,
            p.id,
            page.id,
            written,
            existing,
        );
    }
    assert(r.pages =~= p.pages);
}

/// A file that is named below a directory is settled where its path is plain.
pub proof fn law_files_below_are_settled(
    rel: Seq<char>,
    image_dir: Seq<char>,
    config_dir: Seq<char>,
)
    requires
        config_dir.len() > 0,
        config_dir.last() != '/',
        path::is_plain(rel),
        !is_no_path(rel),
        shared::starterpack_path(rel) == rel,
        own_name(shared::joined(config_dir, rel), image_dir) is None,
    ensures
        settled_path(shared::joined(config_dir, rel), image_dir, config_dir),
{
    path::law_joined_path_is_relative(config_dir, rel);
}

/// The path below the configuration directory of the images of an instance.
pub open spec fn images_below(c: ActionContextView) -> Seq<char> {
    let of_profile = "images"@ + seq!['/'] + c.device + seq!['/'] + c.profile;
    of_profile + seq!['/'] + c.page + seq!['/'] + instances::instance_dir_name(c)
}

/// The names that lead to the images of an instance are those of directories.
pub open spec fn is_placed(c: ActionContextView) -> bool {
    &&& path::is_plain(c.device)
    &&& path::is_plain(c.profile)
    &&& path::is_plain(c.page)
    &&& path::is_plain(instances::instance_dir_name(c))
}

proof fn lemma_begins_alike(p: Seq<char>, s: Seq<char>)
    requires
        p.len() > 0,
    ensures
        p.is_prefix_of(s) ==> s.len() > 0 && p[0] == s[0],
{
    if p.is_prefix_of(s) {
        assert(s.subrange(0, p.len() as int)[0] == s[0]);
    }
}

proof fn lemma_next_dir(config_dir: Seq<char>, rel: Seq<char>, name: Seq<char>)
    requires
        config_dir.len() > 0,
        path::is_plain(rel),
        path::is_plain(name),
    ensures
        shared::joined(config_dir + seq!['/'] + rel, name) == config_dir + seq!['/'] + (rel
            + seq!['/'] + name),
        path::is_plain(rel + seq!['/'] + name),
        rel.len() > 0,
{
    path::lemma_plain_joined(rel, name);
    let dir = config_dir + seq!['/'] + rel;
    assert(dir.last() == rel.last());
    path::law_joined_path_is_relative(dir, name);
    assert(dir + seq!['/'] + name =~= config_dir + seq!['/'] + (rel + seq!['/'] + name));
}

proof fn lemma_images_below(config_dir: Seq<char>, c: ActionContextView)
    requires
        config_dir.len() > 0,
        config_dir.last() != '/',
        is_placed(c),
    ensures
        instances::instance_images(config_dir, c) == config_dir + seq!['/'] + images_below(c),
        path::is_plain(images_below(c)),
        images_below(c).len() > 0,
        images_below(c)[0] == 'i',
{
    reveal_strlit("images");
    let r0 = "images"@;
    assert(path::is_plain(r0)) by {
        text::lemma_split_on_none(r0, '/');
    }
    path::law_joined_path_is_relative(config_dir, r0);
    let r1 = r0 + seq!['/'] + c.device;
    lemma_next_dir(config_dir, r0, c.device);
    let r2 = r1 + seq!['/'] + c.profile;
    lemma_next_dir(config_dir, r1, c.profile);
    let r3 = r2 + seq!['/'] + c.page;
    lemma_next_dir(config_dir, r2, c.page);
    lemma_next_dir(config_dir, r3, instances::instance_dir_name(c));
}

/// A custom icon of an instance stays as it is when it is stored and read: it is
/// stored by its path below the configuration directory.
pub proof fn law_custom_icon_is_settled(
    name: Seq<char>,
    c: ActionContextView,
    config_dir: Seq<char>,
    existing: Seq<Seq<char>>,
)
    requires
        config_dir.len() > 0,
        config_dir[0] == '/',
        config_dir.last() != '/',
        is_placed(c),
        "custom_icon."@.is_prefix_of(name),
        path::is_plain(name),
        ({
            let rel = images_below(c) + seq!['/'] + name;
            shared::starterpack_path(rel) == rel
        }),
    ensures
        settled_image(
            shared::joined(instances::instance_images(config_dir, c), name),
            instances::instance_images(config_dir, c),
            config_dir,
            existing,
        ),
{
    let below = images_below(c);
    let rel = below + seq!['/'] + name;
    let dir = instances::instance_images(config_dir, c);
    let value = shared::joined(dir, name);
    lemma_images_below(config_dir, c);
    lemma_next_dir(config_dir, below, name);
    path::lemma_plain_joined(below, name);
    path::law_joined_path_is_relative(config_dir, rel);
    assert(value == shared::joined(config_dir, rel));
    assert(dir.last() == below.last());
    path::law_joined_path_is_relative(dir, name);
    assert(own_name(value, dir) is None) by {
        reveal_strlit("custom_icon.");
        lemma_begins_alike("custom_icon."@, name);
    }
    assert(rel[0] == 'i');
    assert(!is_no_path(rel)) by {
        reveal_strlit("data:");
        reveal_strlit("riverdeck/");
        reveal_strlit("opendeck/");
        lemma_begins_alike("data:"@, rel);
        lemma_begins_alike("riverdeck/"@, rel);
        lemma_begins_alike("opendeck/"@, rel);
    }
    assert(value[0] == '/');
    text::lemma_trimmed_keeps_first(value);
    assert(text::trimmed(value) != "data:"@ && !"data:"@.is_prefix_of(value)) by {
        reveal_strlit("data:");
        lemma_begins_alike("data:"@, value);
    }
}

/// An image that an instance holds as data, and whose file has been written, is
/// read as that file.
pub proof fn law_data_image_becomes_file(
    image: Seq<char>,
    index: int,
    c: ActionContextView,
    legacy: Seq<char>,
    config_dir: Seq<char>,
    written: Seq<Seq<char>>,
    existing: Seq<Seq<char>>,
)
    requires
        0 <= index,
        config_dir.len() > 0,
        config_dir[0] == '/',
        "data:"@.is_prefix_of(filled(image)),
        data_extension(filled(image)) is Some,
        data_bytes(filled(image)) is Some,
        shared::starterpack_path(data_file(filled(image), index)) == data_file(
            filled(image),
            index,
        ),
        ({
            let dir = instances::instance_images(config_dir, c);
            let file = shared::joined(dir, data_file(filled(image), index));
            written.contains(file) && existing.contains(file)
        }),
    ensures
        ({
            let dir = instances::instance_images(config_dir, c);
            loaded_image(
                stored_image(image, index, dir, config_dir, written),
                dir,
                legacy,
                config_dir,
                existing,
            ) == shared::joined(dir, data_file(filled(image), index))
        }),
{
    let dir = instances::instance_images(config_dir, c);
    let file = data_file(filled(image), index);
    let digits = text::decimal(index as nat);
    text::lemma_decimal(index as nat);
    assert(file[0] == digits[0]);
    assert(text::is_digit(digits[0]));
    assert(file[0] != '/');
    reveal_strlit("images");
    assert(dir[0] == '/') by {
        let images = shared::joined(config_dir, "images"@);
        assert(images[0] == '/');
        let of_device = shared::joined(images, c.device);
        assert(of_device[0] == '/');
        let of_profile = shared::joined(of_device, c.profile);
        assert(of_profile[0] == '/');
        let of_page = shared::joined(of_profile, c.page);
        assert(of_page[0] == '/');
    }
    path::lemma_relative_not_below(dir, file);
    path::lemma_relative_not_below(config_dir, file);
}

/// A path below the configuration directory is stored relative to it, and a stored
/// relative path is read as one below it; a file of the instance whose name begins
/// with a number is stored by that name alone. A path elsewhere is stored as it is.
pub proof fn law_paths_are_stored_relative(
    rel: Seq<char>,
    image_dir: Seq<char>,
    config_dir: Seq<char>,
    value: Seq<char>,
)
    requires
        config_dir.len() > 0,
        config_dir.last() != '/',
        image_dir.len() > 0,
        image_dir.last() != '/',
        path::is_plain(rel),
    ensures
        own_name(config_dir + seq!['/'] + rel, image_dir) is None ==> normalised(
            config_dir + seq!['/'] + rel,
            image_dir,
            config_dir,
        ) == rel,
        text::is_digit(rel[0]) ==> normalised(
            image_dir + seq!['/'] + rel,
            image_dir,
            config_dir,
        ) == rel,
        !is_no_path(rel) ==> reconstructed(rel, config_dir) == config_dir + seq!['/'] + rel,
        path::relative_path(value, config_dir) is None && path::relative_path(value, image_dir)
            is None ==> normalised(value, image_dir, config_dir) == value,
        stored_background(Some(config_dir + seq!['/'] + rel), config_dir) == Some(rel),
        !is_no_path(rel) ==> loaded_background(Some(rel), config_dir) == Some(
            config_dir + seq!['/'] + rel,
        ),
{
    path::law_joined_path_is_relative(config_dir, rel);
    path::law_joined_path_is_relative(image_dir, rel);
    path::lemma_plain_joined(rel, rel);
    lemma_digit_is_ascii(rel[0]);
}

proof fn lemma_digit_is_ascii(c: char)
    ensures
        text::is_digit(c) ==> (c as u32) < 128,
{
}

/// A value that is no path is read as it is stored.
pub proof fn law_no_paths_are_kept(value: Seq<char>, config_dir: Seq<char>)
    ensures
        value.len() == 0 ==> reconstructed(value, config_dir) == value,
        "data:"@.is_prefix_of(value) ==> reconstructed(value, config_dir) == value,
        "riverdeck/"@.is_prefix_of(value) ==> reconstructed(value, config_dir) == value,
        "opendeck/"@.is_prefix_of(value) ==> reconstructed(value, config_dir) == value,
{
}

/// What is stored of an instance keeps its settings, its current state, its place, its
/// action and its states, but for the paths among them; so does what is read.
pub proof fn law_stored_keeps_settings(
    i: InstanceView,
    config_dir: Seq<char>,
    written: Seq<Seq<char>>,
    k: int,
)
    ensures
        ({
            let d = stored(i, config_dir, written);
            &&& d.settings == i.settings
            &&& d.current_state == i.current_state
            &&& d.context.controller == i.context.controller
            &&& d.context.position == i.context.position
            &&& d.context.index == i.context.index
            &&& d.action.uuid == i.action.uuid && d.action.plugin == i.action.plugin
            &&& d.action.name == i.action.name && d.action.controllers == i.action.controllers
            &&& d.action.states.len() == i.action.states.len()
            &&& d.states.len() == i.states.len()
            &&& 0 <= k < i.states.len() ==> d.states[k] == (StateView {
                image: d.states[k].image,
                ..i.states[k]
            })
            &&& d.children is Some <==> i.children is Some
            &&& i.children matches Some(c) ==> d.children->0.len() == c.len() && (0 <= k < c.len()
                ==> d.children->0[k] == stored(c[k], config_dir, written))
        }),
{
}

/// What is read of a stored instance has its settings, its current state, its states
/// and its action under its present names, at its place on the page of the profile.
pub proof fn law_loaded_keeps_settings(
    d: DiskInstanceView,
    config_dir: Seq<char>,
    device: Seq<char>,
    profile: Seq<char>,
    page: Seq<char>,
    existing: Seq<Seq<char>>,
    k: int,
)
    ensures
        ({
            let i = loaded(d, config_dir, device, profile, page, existing);
            &&& i.settings == d.settings
            &&& i.current_state == d.current_state
            &&& i.context.device == device && i.context.profile == profile && i.context.page
                == page
            &&& i.context.controller == d.context.controller
            &&& i.context.position == d.context.position
            &&& i.context.index == d.context.index
            &&& i.action.name == d.action.name && i.action.controllers == d.action.controllers
            &&& i.action.uuid == shared::starterpack_uuid(shared::builtin_uuid(d.action.uuid))
            &&& i.action.plugin == shared::starterpack_plugin(
                shared::builtin_plugin(d.action.plugin),
            )
            &&& i.states.len() == d.states.len()
            &&& 0 <= k < d.states.len() ==> i.states[k] == (StateView {
                image: i.states[k].image,
                ..d.states[k]
            })
            &&& i.children is Some <==> d.children is Some
            &&& d.children matches Some(c) ==> i.children->0.len() == c.len() && (0 <= k < c.len()
                ==> i.children->0[k] == loaded(c[k], config_dir, device, profile, page, existing))
        }),
{
}

/// The file of an instance is read from its directory on the page where it exists
/// there, and else from the directory of former days.
pub proof fn law_own_file_is_found(
    name: Seq<char>,
    present: Seq<char>,
    legacy: Seq<char>,
    config_dir: Seq<char>,
    existing: Seq<Seq<char>>,
)
    requires
        name.len() > 0,
        text::is_digit(name[0]),
        shared::starterpack_path(name) == name,
    ensures
        existing.contains(shared::joined(present, name)) ==> loaded_image(
            name,
            present,
            legacy,
            config_dir,
            existing,
        ) == shared::joined(present, name),
        !existing.contains(shared::joined(present, name)) ==> loaded_image(
            name,
            present,
            legacy,
            config_dir,
            existing,
        ) == shared::joined(legacy, name),
{
    lemma_digit_is_ascii(name[0]);
}

/// A stored profile has every page of the profile, with as many keys and encoders,
/// occupied where they were, and the page that was selected; what is read of a stored
/// profile has every page of that.
pub proof fn law_stored_profile_has_every_page(
    p: ProfileView,
    config_dir: Seq<char>,
    written: Seq<Seq<char>>,
    d: DiskProfileView,
    device: Seq<char>,
    id: Seq<char>,
    existing: Seq<Seq<char>>,
    k: int,
    j: int,
)
    ensures
        stored_profile(p, config_dir, written).selected_page == Some(p.selected_page),
        stored_profile(p, config_dir, written).pages.len() == p.pages.len(),
        0 <= k < p.pages.len() ==> ({
            let a = p.pages[k];
            let b = stored_profile(p, config_dir, written).pages[k];
            &&& b.id == a.id && b.encoder_screen_crop == a.encoder_screen_crop
            &&& b.keys.len() == a.keys.len() && b.sliders.len() == a.sliders.len()
            &&& 0 <= j < a.keys.len() ==> (b.keys[j] is Some <==> a.keys[j] is Some)
            &&& 0 <= j < a.sliders.len() ==> (b.sliders[j] is Some <==> a.sliders[j] is Some)
        }),
        loaded_profile(d, config_dir, device, id, existing).id == id,
        d.selected_page matches Some(s) ==> loaded_profile(d, config_dir, device, id, existing)
            .selected_page == s,
        d.selected_page is None ==> loaded_profile(d, config_dir, device, id, existing)
            .selected_page == "1"@,
        d.pages.len() > 0 ==> loaded_profile(d, config_dir, device, id, existing).pages.len()
            == d.pages.len(),
        d.pages.len() == 0 ==> loaded_profile(d, config_dir, device, id, existing).pages.len()
            == 1,
        0 <= k < d.pages.len() ==> ({
            let a = d.pages[k];
            let b = loaded_profile(d, config_dir, device, id, existing).pages[k];
            &&& b.id == a.id && b.encoder_screen_crop == a.encoder_screen_crop
            &&& b.keys.len() == a.keys.len() && b.sliders.len() == a.sliders.len()
            &&& 0 <= j < a.keys.len() ==> (b.keys[j] is Some <==> a.keys[j] is Some)
            &&& 0 <= j < a.sliders.len() ==> (b.sliders[j] is Some <==> a.sliders[j] is Some)
        }),
{
}

/// Data is written under the number of its state, with the ending that its kind names.
#[verifier::rlimit(50)]
pub proof fn law_data_names_its_kind(kind: Seq<char>, data: Seq<char>, index: nat)
    requires
        !kind.contains(','),
        !kind.contains(';'),
        !kind.contains('+'),
    ensures
        ({
            let image = "data:image/"@ + kind + ";base64,"@ + data;
            &&& data_extension(image) == Some(kind)
            &&& data_file(image, index as int) == text::decimal(index) + "."@ + kind
        }),
{
    reveal_strlit("data:image/");
    reveal_strlit(";base64,");
    let head = "data:image/"@;
    let mark = ";base64,"@;
    let image = head + kind + mark + data;
    let rest = kind + mark + data;
    assert(image[10] == '/');
    assert forall|j: int| 0 <= j < 10 implies #[trigger] image[j] != '/' by {
        assert(image[j] == head[j]);
    }
    text::lemma_index_of_char_is(image, '/', 10);
    assert(image.skip(11) =~= rest);
    let n = kind.len() as int;
    assert(rest[n + 7] == ',');
    assert forall|j: int| 0 <= j < n + 7 implies #[trigger] rest[j] != ',' by {
        if j < n {
            assert(rest[j] == kind[j]);
        } else {
            assert(rest[j] == mark[j - n]);
        }
    }
    text::lemma_index_of_char_is(rest, ',', n + 7);
    let a = up_to(rest, ',');
    assert(a =~= kind + mark.take(7));
    assert(a[n] == ';') by {
        assert(a[n] == mark[0]);
    }
    assert forall|j: int| 0 <= j < n implies #[trigger] a[j] != ';' by {
        assert(a[j] == kind[j]);
    }
    text::lemma_index_of_char_is(a, ';', n);
    assert(up_to(a, ';') =~= kind);
    assert forall|j: int| 0 <= j < n implies #[trigger] kind[j] != '+' by {}
    text::lemma_index_of_char_is(kind, '+', n);
    assert(up_to(kind, '+') =~= kind);
    assert(image.contains('/'));
    assert(rest.contains(','));
}

/// Every image of a state that is held as data and can be read is written, with its
/// bytes, and nothing else is.
pub proof fn law_every_data_image_is_written(
    s: Seq<StateView>,
    dir: Seq<char>,
    n: nat,
    w: WriteView,
)
    requires
        n <= s.len(),
    ensures
        state_writes(s, dir, n).contains(w) <==> exists|k: int|
            0 <= k < n && is_written_as(#[trigger] s[k], k, dir, w),
    decreases n,
{
    let now = state_writes(s, dir, n);
    if n > 0 {
        let m = (n - 1) as nat;
        law_every_data_image_is_written(s, dir, m, w);
        let before = state_writes(s, dir, m);
        if now.contains(w) {
            let t = choose|t: int| 0 <= t < now.len() && now[t] == w;
            if t < before.len() {
                assert(before[t] == w);
                let k = choose|k: int| 0 <= k < m && is_written_as(#[trigger] s[k], k, dir, w);
                assert(is_written_as(s[k], k, dir, w));
            } else {
                assert(is_written_as(s[m as int], m as int, dir, w));
            }
        }
        if exists|k: int| 0 <= k < n && is_written_as(#[trigger] s[k], k, dir, w) {
            let k = choose|k: int| 0 <= k < n && is_written_as(#[trigger] s[k], k, dir, w);
            if k < m {
                let t = choose|t: int| 0 <= t < before.len() && before[t] == w;
                assert(now[t] == w);
            } else {
                assert(now[before.len() as int] == w);
            }
        }
    }
}

/// The image of state `k` is data, and `w` is its file.
pub open spec fn is_written_as(s: StateView, k: int, dir: Seq<char>, w: WriteView) -> bool {
    let image = filled(s.image);
    &&& "data:"@.is_prefix_of(image)
    &&& data_bytes(image) == Some(w.data)
    &&& w.dir == dir
    &&& w.name == data_file(image, k)
}

/// Data without any content becomes a blank image, and any other image stays.
pub proof fn law_only_empty_data_is_filled(image: Seq<char>)
    ensures
        text::trimmed(image) == "data:"@ ==> filled(image) == BLANK_IMAGE@,
        text::trimmed(image) != "data:"@ ==> filled(image) == image,
{
}

} // verus!
