use crate::error::NewtonError;
use vstd::prelude::*;

verus! {

/// A complete `RESOURCES.NEWTON` document.
#[derive(Debug, Clone, PartialEq, Eq)]
pub struct ResourceManifest {
    pub slot_count: u32,
    pub groups: Vec<ResourceGroup>,
}

/// A composite group references subgroups; a simple group owns resources.
#[derive(Debug, Clone, PartialEq, Eq)]
pub enum ResourceGroup {
    Composite(CompositeGroup),
    Simple(SimpleGroup),
}

#[derive(Debug, Clone, PartialEq, Eq)]
pub struct CompositeGroup {
    pub id: String,
    pub resolution: Option<u32>,
    pub parent: Option<String>,
    pub subgroups: Vec<Subgroup>,
}

#[derive(Debug, Clone, PartialEq, Eq)]
pub struct SimpleGroup {
    pub id: String,
    pub resolution: Option<u32>,
    pub parent: Option<String>,
    pub resources: Vec<Resource>,
}

#[derive(Debug, Clone, PartialEq, Eq)]
pub struct Subgroup {
    pub id: String,
    pub resolution: Option<u32>,
}

/// A resource record owned by a simple group.
///
/// NEWTON stores separate ID and path presence bits. The semantic model keeps
/// both strings required: decoding rejects records that omit either field, and
/// encoding always writes both presence bits.
#[derive(Debug, Clone, PartialEq, Eq)]
pub struct Resource {
    pub resource_type: ResourceType,
    pub slot: u32,
    pub id: String,
    pub path: String,
    pub width: Option<u32>,
    pub height: Option<u32>,
    pub x: Option<i32>,
    pub y: Option<i32>,
    pub ax: Option<u32>,
    pub ay: Option<u32>,
    pub aw: Option<u32>,
    pub ah: Option<u32>,
    pub cols: Option<u32>,
    pub rows: Option<u32>,
    pub atlas: bool,
    pub parent: Option<String>,
}

/// Resource type byte stored by NEWTON.
#[derive(Debug, Clone, Copy, PartialEq, Eq, Hash)]
pub enum ResourceType {
    Image,
    PopAnim,
    SoundBank,
    File,
    PrimeFont,
    RenderEffect,
    DecodedSoundBank,
}

// ----- mathematical models -----

/// The characters of an optional string.
pub open spec fn opt_text(value: Option<String>) -> Option<Seq<char>> {
    match value {
        Some(s) => Some(s@),
        None => None,
    }
}

pub struct SubgroupView {
    pub id: Seq<char>,
    pub resolution: Option<u32>,
}

pub struct ResourceView {
    pub resource_type: ResourceType,
    pub slot: u32,
    pub id: Seq<char>,
    pub path: Seq<char>,
    pub width: Option<u32>,
    pub height: Option<u32>,
    pub x: Option<i32>,
    pub y: Option<i32>,
    pub ax: Option<u32>,
    pub ay: Option<u32>,
    pub aw: Option<u32>,
    pub ah: Option<u32>,
    pub cols: Option<u32>,
    pub rows: Option<u32>,
    pub atlas: bool,
    pub parent: Option<Seq<char>>,
}

pub struct CompositeGroupView {
    pub id: Seq<char>,
    pub resolution: Option<u32>,
    pub parent: Option<Seq<char>>,
    pub subgroups: Seq<SubgroupView>,
}

pub struct SimpleGroupView {
    pub id: Seq<char>,
    pub resolution: Option<u32>,
    pub parent: Option<Seq<char>>,
    pub resources: Seq<ResourceView>,
}

pub enum GroupView {
    Composite(CompositeGroupView),
    Simple(SimpleGroupView),
}

pub struct ManifestView {
    pub slot_count: u32,
    pub groups: Seq<GroupView>,
}

impl View for Subgroup {
    type V = SubgroupView;

    open spec fn view(&self) -> SubgroupView {
        SubgroupView { id: self.id@, resolution: self.resolution }
    }
}

impl View for Resource {
    type V = ResourceView;

    open spec fn view(&self) -> ResourceView {
        ResourceView {
            resource_type: self.resource_type,
            slot: self.slot,
            id: self.id@,
            path: self.path@,
            width: self.width,
            height: self.height,
            x: self.x,
            y: self.y,
            ax: self.ax,
            ay: self.ay,
            aw: self.aw,
            ah: self.ah,
            cols: self.cols,
            rows: self.rows,
            atlas: self.atlas,
            parent: opt_text(self.parent),
        }
    }
}

impl View for CompositeGroup {
    type V = CompositeGroupView;

    open spec fn view(&self) -> CompositeGroupView {
        CompositeGroupView {
            id: self.id@,
            resolution: self.resolution,
            parent: opt_text(self.parent),
            subgroups: self.subgroups@.map_values(|s: Subgroup| s@),
        }
    }
}

impl View for SimpleGroup {
    type V = SimpleGroupView;

    open spec fn view(&self) -> SimpleGroupView {
        SimpleGroupView {
            id: self.id@,
            resolution: self.resolution,
            parent: opt_text(self.parent),
            resources: self.resources@.map_values(|r: Resource| r@),
        }
    }
}

impl View for ResourceGroup {
    type V = GroupView;

    open spec fn view(&self) -> GroupView {
        match self {
            ResourceGroup::Composite(g) => GroupView::Composite(g@),
            ResourceGroup::Simple(g) => GroupView::Simple(g@),
        }
    }
}

impl View for ResourceManifest {
    type V = ManifestView;

    open spec fn view(&self) -> ManifestView {
        ManifestView {
            slot_count: self.slot_count,
            groups: self.groups@.map_values(|g: ResourceGroup| g@),
        }
    }
}

impl GroupView {
    pub open spec fn id(self) -> Seq<char> {
        match self {
            GroupView::Composite(g) => g.id,
            GroupView::Simple(g) => g.id,
        }
    }

    pub open spec fn resolution(self) -> Option<u32> {
        match self {
            GroupView::Composite(g) => g.resolution,
            GroupView::Simple(g) => g.resolution,
        }
    }

    pub open spec fn parent(self) -> Option<Seq<char>> {
        match self {
            GroupView::Composite(g) => g.parent,
            GroupView::Simple(g) => g.parent,
        }
    }
}

impl ResourceView {
    /// An image that lives inside an atlas.
    pub open spec fn is_sprite(self) -> bool {
        self.resource_type == ResourceType::Image && self.parent is Some
    }
}

// ----- operations -----

impl ResourceGroup {
    pub fn id(&self) -> (r: &str)
        ensures
            r@ == self@.id(),
    {
        match self {
            ResourceGroup::Composite(group) => group.id.as_str(),
            ResourceGroup::Simple(group) => group.id.as_str(),
        }
    }

    pub fn resolution(&self) -> (r: Option<u32>)
        ensures
            r == self@.resolution(),
    {
        match self {
            ResourceGroup::Composite(group) => group.resolution,
            ResourceGroup::Simple(group) => group.resolution,
        }
    }

    pub fn parent(&self) -> (r: Option<&str>)
        ensures
            match r {
                Some(p) => self@.parent() == Some(p@),
                None => self@.parent() is None,
            },
    {
        let parent = match self {
            ResourceGroup::Composite(group) => &group.parent,
            ResourceGroup::Simple(group) => &group.parent,
        };
        match parent {
            Some(p) => Some(p.as_str()),
            None => None,
        }
    }
}

impl Resource {
    pub fn is_sprite(&self) -> (r: bool)
        ensures
            r == self@.is_sprite(),
    {
        self.resource_type.is_image() && self.parent.is_some()
    }
}

/// The type byte that NEWTON stores for each resource type.
pub open spec fn type_byte(t: ResourceType) -> u8 {
    match t {
        ResourceType::Image => 1,
        ResourceType::PopAnim => 2,
        ResourceType::SoundBank => 3,
        ResourceType::File => 4,
        ResourceType::PrimeFont => 5,
        ResourceType::RenderEffect => 6,
        ResourceType::DecodedSoundBank => 7,
    }
}

/// The resource type that a type byte names, if any.
pub open spec fn type_of_byte(value: u8) -> Option<ResourceType> {
    if value == 1 {
        Some(ResourceType::Image)
    } else if value == 2 {
        Some(ResourceType::PopAnim)
    } else if value == 3 {
        Some(ResourceType::SoundBank)
    } else if value == 4 {
        Some(ResourceType::File)
    } else if value == 5 {
        Some(ResourceType::PrimeFont)
    } else if value == 6 {
        Some(ResourceType::RenderEffect)
    } else if value == 7 {
        Some(ResourceType::DecodedSoundBank)
    } else {
        None
    }
}

/// The two resource-type tables are inverse to each other: every type has a
/// byte in `1..=7`, that byte names the type again, and every byte that names
/// a type is that type's byte.
pub proof fn lemma_type_byte_round_trip(t: ResourceType, value: u8)
    ensures
        1 <= type_byte(t) <= 7,
        type_of_byte(type_byte(t)) == Some(t),
        type_of_byte(value) == Some(t) ==> type_byte(t) == value,
        type_of_byte(value) is Some <==> 1 <= value <= 7,
{
}

impl ResourceType {
    pub fn to_u8(self) -> (r: u8)
        ensures
            r == type_byte(self),
    {
        match self {
            ResourceType::Image => 1,
            ResourceType::PopAnim => 2,
            ResourceType::SoundBank => 3,
            ResourceType::File => 4,
            ResourceType::PrimeFont => 5,
            ResourceType::RenderEffect => 6,
            ResourceType::DecodedSoundBank => 7,
        }
    }

    /// True for [`ResourceType::Image`].
    pub fn is_image(self) -> (r: bool)
        ensures
            r == (self == ResourceType::Image),
    {
        match self {
            ResourceType::Image => true,
            _ => false,
        }
    }

    /// Decode a resource type byte.
    pub fn from_u8(value: u8) -> (r: Result<ResourceType, NewtonError>)
        ensures
            match type_of_byte(value) {
                Some(t) => r == Ok::<ResourceType, NewtonError>(t),
                None => r matches Err(e) && e@ == crate::error::ErrorView::InvalidResourceType(
                    value,
                ),
            },
    {
        match value {
            1 => Ok(ResourceType::Image),
            2 => Ok(ResourceType::PopAnim),
            3 => Ok(ResourceType::SoundBank),
            4 => Ok(ResourceType::File),
            5 => Ok(ResourceType::PrimeFont),
            6 => Ok(ResourceType::RenderEffect),
            7 => Ok(ResourceType::DecodedSoundBank),
            _ => Err(NewtonError::InvalidResourceType(value)),
        }
    }
}


impl vstd::std_specs::convert::TryFromSpecImpl<u8> for ResourceType {
    open spec fn obeys_try_from_spec() -> bool {
        true
    }

    open spec fn try_from_spec(value: u8) -> Result<Self, NewtonError> {
        match type_of_byte(value) {
            Some(t) => Ok(t),
            None => Err(NewtonError::InvalidResourceType(value)),
        }
    }
}

impl TryFrom<u8> for ResourceType {
    type Error = NewtonError;

    fn try_from(value: u8) -> (r: Result<Self, NewtonError>) {
        match value {
            1 => Ok(ResourceType::Image),
            2 => Ok(ResourceType::PopAnim),
            3 => Ok(ResourceType::SoundBank),
            4 => Ok(ResourceType::File),
            5 => Ok(ResourceType::PrimeFont),
            6 => Ok(ResourceType::RenderEffect),
            7 => Ok(ResourceType::DecodedSoundBank),
            _ => Err(NewtonError::InvalidResourceType(value)),
        }
    }
}

} // verus!
