//! Level selection state of a scene: the level shown, the level asked for,
//! and whether the level changed in the last update.
use vstd::prelude::*;

verus! {

/// Where the level data of a scene comes from.
#[derive(Clone, Debug)]
pub struct Config {
    pub wad_path: String,
    pub metadata_path: String,
    pub initial_level_index: usize,
}

/// What the scene layout reads when it is created or updated.
pub struct Dependencies<'context> {
    pub config: &'context Config,
}

/// Current and requested level of a scene.
pub struct SceneLayout {
    level_name: String,
    current_level_index: usize,
    next_level_index: usize,
    level_changed: bool,
}

impl SceneLayout {
    pub closed spec fn current(self) -> usize {
        self.current_level_index
    }

    pub closed spec fn requested(self) -> usize {
        self.next_level_index
    }

    pub closed spec fn changed(self) -> bool {
        self.level_changed
    }

    pub closed spec fn name(self) -> Seq<char> {
        self.level_name@
    }

    /// The menu scene: level 0, named `mscene`, with no change pending.
    pub fn create(deps: Dependencies) -> (r: SceneLayout)
        ensures
            r.current() == 0,
            r.requested() == 0,
            !r.changed(),
            r.name() == "mscene"@,
    {
        let _ = deps.config;
        SceneLayout {
            level_name: "mscene".to_owned(),
            current_level_index: 0,
            next_level_index: 0,
            level_changed: false,
        }
    }

    /// Name of the current level.
    pub fn level_name(&self) -> (r: &String)
        ensures
            r@ == self.name(),
    {
        &self.level_name
    }

    /// Index of the current level.
    pub fn level_index(&self) -> (r: usize)
        ensures
            r == self.current(),
    {
        self.current_level_index
    }

    /// Asks for another level from the next update on.
    pub fn change_level(&mut self, new_level_index: usize)
        ensures
            final(self).requested() == new_level_index,
            final(self).current() == old(self).current(),
            final(self).changed() == old(self).changed(),
            final(self).name() == old(self).name(),
    {
        self.next_level_index = new_level_index;
    }

    /// Whether the level changed in the last update.
    pub fn level_changed(&self) -> (r: bool)
        ensures
            r == self.changed(),
    {
        self.level_changed
    }

    /// One update: this scene has a single level, so a request for another
    /// one is kept pending and nothing changes.
    pub fn update(&mut self, deps: Dependencies)
        ensures
            !final(self).changed(),
            final(self).current() == old(self).current(),
            final(self).requested() == old(self).requested(),
            final(self).name() == old(self).name(),
    {
        let _ = deps.config;
        self.level_changed = false;
    }
}

} // verus!
