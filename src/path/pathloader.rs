use vstd::prelude::*;

use crate::path::pathfilter::PathExtensionFilter;

verus! {

/// Paths gathered as text, in the order in which they were given.
pub struct PathLoader {
    paths: Vec<String>,
}

impl View for PathLoader {
    type V = Seq<Seq<char>>;

    closed spec fn view(&self) -> Seq<Seq<char>> {
        self.paths@.map_values(|p: String| p@)
    }
}

impl PathLoader {
    /// An empty list.
    pub fn new() -> (r: PathLoader)
        ensures
            r@ == Seq::<Seq<char>>::empty(),
    {
        PathLoader { paths: Vec::new() }
    }

    /// Appends `path`.
    pub fn add(&mut self, path: String)
        ensures
            final(self)@ == old(self)@.push(path@),
    {
        self.paths.push(path);
        proof {
            assert(self@ =~= old(self)@.push(path@));
        }
    }

    /// Appends `paths`, in order.
    pub fn add_many(&mut self, paths: Vec<String>)
        ensures
            final(self)@ == old(self)@ + paths@.map_values(|p: String| p@),
    {
        let ghost added = paths@.map_values(|p: String| p@);
        for p in it: paths.into_iter()
            invariant
                it.seq() == paths@,
                added == paths@.map_values(|p: String| p@),
                self@ == old(self)@ + added.take(it.index() as int),
        {
            let ghost k = it.index() as int;
            let ghost before = self@;
            self.add(p);
            proof {
                assert(added.take(k + 1) =~= added.take(k).push(added[k]));
                assert(self@ =~= old(self)@ + added.take(k + 1));
            }
        }
        proof {
            assert(added.take(added.len() as int) =~= added);
        }
    }

    /// The paths, in the order in which they were added.
    pub fn all(&self) -> (r: &Vec<String>)
        ensures
            r@.map_values(|p: String| p@) == self@,
    {
        &self.paths
    }

    /// Keeps only the paths that `filter` accepts, in their order.
    pub fn apply_filter(&mut self, filter: &PathExtensionFilter)
        ensures
            final(self)@ == old(self)@.filter(|p: Seq<char>| filter.accepts(p)),
    {
        let ghost pred = |p: Seq<char>| filter.accepts(p);
        let ghost all = old(self)@;
        let mut taken: Vec<String> = Vec::new();
        std::mem::swap(&mut self.paths, &mut taken);
        assert(taken@.map_values(|p: String| p@) == all);
        let mut kept: Vec<String> = Vec::new();
        for p in it: taken.into_iter()
            invariant
                it.seq() == taken@,
                all == taken@.map_values(|p: String| p@),
                pred == (|p: Seq<char>| filter.accepts(p)),
                kept@.map_values(|p: String| p@) == all.take(it.index() as int).filter(pred),
        {
            let ghost k = it.index() as int;
            let ghost before = kept@.map_values(|p: String| p@);
            proof {
                reveal(Seq::filter);
                assert(all.take(k + 1).drop_last() =~= all.take(k));
                assert(all.take(k + 1).last() == p@);
            }
            if filter.is_match(p.as_str()) {
                kept.push(p);
                assert(kept@.map_values(|p: String| p@) =~= before.push(all[k]));
            } else {
                assert(kept@.map_values(|p: String| p@) =~= before);
            }
        }
        proof {
            assert(all.take(all.len() as int) =~= all);
        }
        self.paths = kept;
    }
}

} // verus!
