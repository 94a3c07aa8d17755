//! A registry of resources, partitioned by class and indexed by name.

use vstd::prelude::*;
use vstd::hash_map::StringHashMap;
use crate::loader::compose::UvRect;

pub mod shader;

verus! {

/// The kinds of resource that the registry keeps apart.
#[derive(Clone, Copy, PartialEq, Eq, Structural, Debug)]
pub enum ResourceClass {
    Texture,
    Sprite,
    /// Whatever is kept outside the registry and found again by a number: a
    /// window, a shader program.
    Handle,
}

/// Where a resource is kept: its class and its index among the resources of
/// that class.
#[derive(Clone, Copy, PartialEq, Eq, Structural, Debug)]
pub struct ResourceKey {
    pub class: ResourceClass,
    pub id: usize,
}

/// The pixels of a texture, as they are handed to the graphics device.
#[derive(Clone, Debug)]
pub struct TextureData {
    pub width: u32,
    pub height: u32,
    pub data: Vec<u8>,
}

/// A sprite that is a rectangle of a shared texture.
#[derive(Clone, Copy, PartialEq, Eq, Structural, Debug)]
pub struct UvSprite {
    pub uv: UvRect,
    pub texture: ResourceKey,
}

/// A resource of one of the classes.
#[derive(Clone, Debug)]
pub enum Resource {
    Texture(TextureData),
    Sprite(UvSprite),
    Handle(u64),
}

impl Resource {
    /// The class that the resource belongs to.
    pub open spec fn class_of(&self) -> ResourceClass {
        match self {
            Resource::Texture(_) => ResourceClass::Texture,
            Resource::Sprite(_) => ResourceClass::Sprite,
            Resource::Handle(_) => ResourceClass::Handle,
        }
    }

    /// The class under which the registry keeps this resource.
    pub fn class(&self) -> (res: ResourceClass)
        ensures
            res == self.class_of(),
    {
        match self {
            Resource::Texture(_) => ResourceClass::Texture,
            Resource::Sprite(_) => ResourceClass::Sprite,
            Resource::Handle(_) => ResourceClass::Handle,
        }
    }
}

/// Every resource of the group is of the given class.
pub open spec fn group_of_class(group: Option<Seq<Resource>>, class: ResourceClass) -> bool {
    group matches Some(items) ==> forall|i: int|
        0 <= i < items.len() ==> (#[trigger] items[i]).class_of() == class
}

/// The registry: for each registered class the resources of that class, and
/// the key that each name was last bound to.
pub struct Resources {
    resource_names: StringHashMap<ResourceKey>,
    textures: Option<Vec<Resource>>,
    sprites: Option<Vec<Resource>>,
    handles: Option<Vec<Resource>>,
}

impl Resources {
    /// The resources of a class in the order they were added; `None` while
    /// the class is not registered.
    pub closed spec fn group(&self, class: ResourceClass) -> Option<Seq<Resource>> {
        match class {
            ResourceClass::Texture => match self.textures {
                Some(items) => Some(items@),
                None => None,
            },
            ResourceClass::Sprite => match self.sprites {
                Some(items) => Some(items@),
                None => None,
            },
            ResourceClass::Handle => match self.handles {
                Some(items) => Some(items@),
                None => None,
            },
        }
    }

    /// The key that each name is bound to.
    pub closed spec fn names(&self) -> Map<Seq<char>, ResourceKey> {
        self.resource_names@
    }

    /// Each group holds resources of its own class only.
    pub open spec fn wf(&self) -> bool {
        &&& group_of_class(self.group(ResourceClass::Texture), ResourceClass::Texture)
        &&& group_of_class(self.group(ResourceClass::Sprite), ResourceClass::Sprite)
        &&& group_of_class(self.group(ResourceClass::Handle), ResourceClass::Handle)
    }

    /// The key is one that `add_resource` has handed out.
    pub open spec fn holds(&self, key: ResourceKey) -> bool {
        self.group(key.class) matches Some(items) && key.id < items.len()
    }

    /// A registry without classes and without names.
    pub fn new() -> (res: Self)
        ensures
            res.wf(),
            res.group(ResourceClass::Texture) is None,
            res.group(ResourceClass::Sprite) is None,
            res.group(ResourceClass::Handle) is None,
            res.names() == Map::<Seq<char>, ResourceKey>::empty(),
    {
        Resources { resource_names: StringHashMap::new(), textures: None, sprites: None, handles: None }
    }

    /// Whether a group was opened for `class`.
    pub fn has_type(&self, class: ResourceClass) -> (res: bool)
        ensures
            res == (self.group(class) is Some),
    {
        match class {
            ResourceClass::Texture => self.textures.is_some(),
            ResourceClass::Sprite => self.sprites.is_some(),
            ResourceClass::Handle => self.handles.is_some(),
        }
    }

    /// Whether a resource is kept under `key`.
    pub fn has_resource(&self, key: &ResourceKey) -> (res: bool)
        ensures
            res == self.holds(*key),
    {
        match key.class {
            ResourceClass::Texture => match &self.textures {
                Some(items) => key.id < items.len(),
                None => false,
            },
            ResourceClass::Sprite => match &self.sprites {
                Some(items) => key.id < items.len(),
                None => false,
            },
            ResourceClass::Handle => match &self.handles {
                Some(items) => key.id < items.len(),
                None => false,
            },
        }
    }

    /// The key that `key` is bound to, if it is bound.
    pub fn find_resource_key(&self, key: &str) -> (res: Option<ResourceKey>)
        ensures
            res == if self.names().dom().contains(key@) {
                Some(self.names()[key@])
            } else {
                None
            },
    {
        match self.resource_names.get(key) {
            Some(found) => Some(*found),
            None => None,
        }
    }

    /// The key that `key` is bound to.
    pub fn get_resource_key(&self, key: &str) -> (res: ResourceKey)
        requires
            self.names().dom().contains(key@),
        ensures
            res == self.names()[key@],
    {
        self.find_resource_key(key).unwrap()
    }

    /// The resource kept under `key`.
    pub fn get_resource(&self, key: &ResourceKey) -> (res: &Resource)
        requires
            self.holds(*key),
        ensures
            *res == self.group(key.class).unwrap()[key.id as int],
    {
        match key.class {
            ResourceClass::Texture => &self.textures.as_ref().unwrap()[key.id],
            ResourceClass::Sprite => &self.sprites.as_ref().unwrap()[key.id],
            ResourceClass::Handle => &self.handles.as_ref().unwrap()[key.id],
        }
    }

    /// Adds `value` to the group of its class and binds `name` to its key.
    pub fn add_resource(&mut self, value: Resource, name: String) -> (res: ResourceKey)
        requires
            old(self).wf(),
            old(self).group(value.class_of()) is Some,
        ensures
            final(self).wf(),
            res.class == value.class_of(),
            res.id == old(self).group(res.class).unwrap().len(),
            final(self).group(res.class) == Some(old(self).group(res.class).unwrap().push(value)),
            forall|other: ResourceClass|
                other != res.class ==> final(self).group(other) == old(self).group(other),
            final(self).names() == old(self).names().insert(name@, res),
    {
        let class = value.class();
        let mut items: Vec<Resource> = match class {
            ResourceClass::Texture => self.textures.take().unwrap(),
            ResourceClass::Sprite => self.sprites.take().unwrap(),
            ResourceClass::Handle => self.handles.take().unwrap(),
        };
        let id: usize = items.len();
        items.push(value);
        match class {
            ResourceClass::Texture => {
                self.textures = Some(items);
            },
            ResourceClass::Sprite => {
                self.sprites = Some(items);
            },
            ResourceClass::Handle => {
                self.handles = Some(items);
            },
        }
        let res = ResourceKey { class, id };
        self.resource_names.insert(name, res);
        res
    }

    /// Opens a group for `class`. Returns whether the class was new.
    pub fn register_type(&mut self, class: ResourceClass) -> (res: bool)
        requires
            old(self).wf(),
        ensures
            final(self).wf(),
            res == (old(self).group(class) is None),
            res ==> final(self).group(class) == Some(Seq::<Resource>::empty()),
            !res ==> final(self).group(class) == old(self).group(class),
            forall|other: ResourceClass|
                other != class ==> final(self).group(other) == old(self).group(other),
            final(self).names() == old(self).names(),
    {
        match class {
            ResourceClass::Texture => {
                if self.textures.is_some() {
                    false
                } else {
                    self.textures = Some(Vec::new());
                    true
                }
            },
            ResourceClass::Sprite => {
                if self.sprites.is_some() {
                    false
                } else {
                    self.sprites = Some(Vec::new());
                    true
                }
            },
            ResourceClass::Handle => {
                if self.handles.is_some() {
                    false
                } else {
                    self.handles = Some(Vec::new());
                    true
                }
            },
        }
    }
}

} // verus!
