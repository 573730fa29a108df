pub mod cell_world;
pub mod chunk_index;
pub mod name_index;

use vstd::prelude::*;
use crate::assets::{CellAsset, CellAssetView, Color};
use crate::enums::CellPhysicsType;
use crate::resources::name_index::{name_index_contents, NameIndex};

verus! {

/// The id of the material that `name` resolves to: the last definition in `assets` with that
/// name, `None` where there is none.
pub open spec fn last_index_named(assets: Seq<CellAssetView>, name: Seq<char>) -> Option<usize>
    decreases assets.len(),
{
    if assets.len() == 0 {
        None
    } else if assets.last().name == name {
        Some((assets.len() - 1) as usize)
    } else {
        last_index_named(assets.drop_last(), name)
    }
}

/// A resolved name is the id of a definition with that name, and a name that does not
/// resolve is the name of no definition.
pub proof fn lemma_last_index_named(assets: Seq<CellAssetView>, name: Seq<char>)
    requires
        assets.len() <= usize::MAX,
    ensures
        last_index_named(assets, name) matches Some(id) ==> id < assets.len() && assets[id as int].name
            == name,
        last_index_named(assets, name) is None ==> forall|i: int|
            0 <= i < assets.len() ==> (#[trigger] assets[i]).name != name,
    decreases assets.len(),
{
    if assets.len() > 0 && assets.last().name != name {
        let shorter = assets.drop_last();
        lemma_last_index_named(shorter, name);
        if last_index_named(assets, name) is Some {
            let id = last_index_named(assets, name).unwrap();
            assert(shorter[id as int] == assets[id as int]);
        } else {
            assert forall|i: int| 0 <= i < assets.len() implies (#[trigger] assets[i]).name != name by {
                if i < assets.len() - 1 {
                    assert(shorter[i] == assets[i]);
                }
            }
        }
    }
}

/// The material registry: the definitions in the order they were added, each known by its
/// position (its id) and by its name.
pub struct CellAssets {
    assets: Vec<CellAsset>,
    assets_ids_map: NameIndex,
    assets_color_vec: Vec<Color>,
}

impl View for CellAssets {
    type V = Seq<CellAssetView>;

    /// The definitions, by id.
    closed spec fn view(&self) -> Seq<CellAssetView> {
        Seq::new(self.assets@.len(), |i: int| self.assets@[i]@)
    }
}

impl Default for CellAssets {
    /// A registry without materials.
    fn default() -> (registry: CellAssets)
        ensures
            registry.wf(),
            registry@.len() == 0,
    {
        CellAssets { assets: Vec::new(), assets_ids_map: NameIndex::new(), assets_color_vec: Vec::new() }
    }
}

impl CellAssets {
    /// The name index and the colour list agree with the definitions.
    pub closed spec fn wf(&self) -> bool {
        let names = name_index_contents(self.assets_ids_map);
        &&& self.assets_color_vec@.len() == self.assets@.len()
        &&& forall|i: int| 0 <= i < self.assets@.len() ==> #[trigger] self.assets_color_vec@[i] == self.assets@[i].color
        &&& forall|name: Seq<char>| #[trigger] last_index_named(self@, name) == if names.contains_key(name) {
            Some(names[name])
        } else {
            None
        }
    }

    /// The behaviour that the material id resolves to, `None` for an unknown id.
    pub open spec fn behavior(assets: Seq<CellAssetView>, id: usize) -> Option<CellPhysicsType> {
        if id < assets.len() {
            Some(assets[id as int].physics_behavior)
        } else {
            None
        }
    }

    /// Adds a definition. Its id is the number of definitions before it; its name then
    /// resolves to it, also where an earlier definition has the same name.
    pub fn add(&mut self, asset: CellAsset)
        requires
            old(self).wf(),
        ensures
            final(self).wf(),
            final(self)@ == old(self)@.push(asset@),
    {
        let ghost before = self@;
        let id = self.assets.len();
        self.assets_color_vec.push(asset.color);
        self.assets_ids_map.insert(asset.name.clone(), id);
        self.assets.push(asset);
        proof {
            assert(self@ =~= before.push(asset@));
            assert(self@.drop_last() =~= before);
            let names = name_index_contents(self.assets_ids_map);
            assert forall|name: Seq<char>| #[trigger] last_index_named(self@, name) == if names.contains_key(name) {
                Some(names[name])
            } else {
                None
            } by {
                assert(self@.last() == asset@);
                if name != asset@.name {
                    assert(last_index_named(self@, name) == last_index_named(before, name));
                }
            }
        }
    }

    /// Adds a tap that emits the material `target` names. The name is resolved now: where
    /// the registry knows it, the tap is added like any other definition and holds the
    /// target's id; where it does not, nothing is added.
    pub fn add_tap(&mut self, name: String, target: String, color: Color, density: i32) -> (added:
        bool)
        requires
            old(self).wf(),
        ensures
            final(self).wf(),
            match last_index_named(old(self)@, target@) {
                Some(id) => added && final(self)@ == old(self)@.push(
                    (CellAssetView {
                        physics_behavior: CellPhysicsType::Tap(id),
                        color,
                        name: name@,
                        density,
                    }),
                ),
                None => !added && final(self)@ == old(self)@,
            },
    {
        match self.assets_ids_map.get(target.as_str()) {
            Some(id) => {
                self.add(CellAsset { physics_behavior: CellPhysicsType::Tap(id), color, name, density });
                true
            },
            None => false,
        }
    }

    /// The definition with the given id.
    pub fn get(&self, i: usize) -> (asset: Option<CellAsset>)
        requires
            self.wf(),
        ensures
            i < self@.len() ==> (asset matches Some(found) && found@ == self@[i as int]),
            i >= self@.len() ==> asset is None,
    {
        if i < self.assets.len() {
            Some(self.assets[i].clone())
        } else {
            None
        }
    }

    /// The id that a name resolves to.
    pub fn get_index_by_name(&self, name: String) -> (id: Option<usize>)
        requires
            self.wf(),
        ensures
            id == last_index_named(self@, name@),
    {
        self.assets_ids_map.get(name.as_str())
    }

    /// The definition that a name resolves to.
    pub fn get_by_name(&self, name: String) -> (asset: Option<CellAsset>)
        requires
            self.wf(),
        ensures
            match last_index_named(self@, name@) {
                Some(id) => id < self@.len() && (asset matches Some(found) && found@ == self@[id as int]),
                None => asset is None,
            },
    {
        let n = self.assets.len();
        proof {
            assert(self@.len() == n);
            lemma_last_index_named(self@, name@);
        }
        match self.assets_ids_map.get(name.as_str()) {
            Some(id) => Some(self.assets[id].clone()),
            None => None,
        }
    }

    /// The colour of the material with the given id, `None` for an unknown id.
    pub fn get_color(&self, i: usize) -> (color: Option<Color>)
        requires
            self.wf(),
        ensures
            color == (if i < self@.len() {
                Some(self@[i as int].color)
            } else {
                None
            }),
    {
        if i < self.assets_color_vec.len() {
            Some(self.assets_color_vec[i])
        } else {
            None
        }
    }

    /// The colour of the material that a name resolves to.
    pub fn get_color_by_name(&self, name: String) -> (color: Option<Color>)
        requires
            self.wf(),
        ensures
            color == (match last_index_named(self@, name@) {
                Some(id) => Some(self@[id as int].color),
                None => None,
            }),
    {
        let n = self.assets.len();
        proof {
            assert(self@.len() == n);
            lemma_last_index_named(self@, name@);
        }
        match self.assets_ids_map.get(name.as_str()) {
            Some(id) => Some(self.assets_color_vec[id]),
            None => None,
        }
    }

    /// The behaviour of the material with the given id, `None` for an unknown id.
    pub fn get_physics_behavior(&self, i: usize) -> (found: Option<CellPhysicsType>)
        requires
            self.wf(),
        ensures
            found == CellAssets::behavior(self@, i),
    {
        if i < self.assets.len() {
            Some(self.assets[i].physics_behavior)
        } else {
            None
        }
    }

    /// The id of the definition added last.
    pub fn get_last_index(self) -> (id: usize)
        requires
            self.wf(),
            self@.len() > 0,
        ensures
            id == self@.len() - 1,
    {
        self.assets.len() - 1
    }

    /// Number of definitions.
    pub fn len(&self) -> (n: usize)
        ensures
            n == self@.len(),
    {
        self.assets.len()
    }
}

} // verus!
