use vstd::prelude::*;
use crate::resource::Resource;
use crate::resource::ResourceClass;
use crate::resource::Resources;

verus! {

/// Opens the group of sprites in the registry, unless it is open already.
pub fn register_sprite(resources: &mut Resources)
    requires
        old(resources).wf(),
    ensures
        final(resources).wf(),
        final(resources).group(ResourceClass::Sprite) == Some(
            match old(resources).group(ResourceClass::Sprite) {
                Some(items) => items,
                None => Seq::<Resource>::empty(),
            },
        ),
        final(resources).group(ResourceClass::Texture) == old(resources).group(
            ResourceClass::Texture,
        ),
        final(resources).group(ResourceClass::Handle) == old(resources).group(
            ResourceClass::Handle,
        ),
        final(resources).names() == old(resources).names(),
{
    let _ = resources.register_type(ResourceClass::Sprite);
}

} // verus!
