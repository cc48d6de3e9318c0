//! The registry: the process-wide ordered collection of accepted paths.

use vstd::prelude::*;

verus! {

/// Process-wide registry of accepted image paths.
///
/// The registry is a dumb, trusted store: it keeps every path handed to
/// it, in insertion order, duplicates included, and never removes one.
/// Validation is the ingestion pipeline's responsibility.  All access
/// goes through a single exclusively held value (`&mut` for writes), so
/// no two appends can interleave and no append can be lost; a caller
/// that shares the registry between execution contexts wraps it in a
/// mutual-exclusion guard and holds the guard across each operation.
pub struct AppState {
    /// The stored paths, in insertion order.
    pub image_paths: Vec<String>,
}

impl View for AppState {
    type V = Seq<Seq<char>>;

    /// A registry is modelled as the sequence of its paths' texts.
    open spec fn view(&self) -> Seq<Seq<char>> {
        self.image_paths.deep_view()
    }
}

impl AppState {
    /// Creates an empty registry: `list` on an untouched registry
    /// returns an empty sequence, not an error.
    pub fn new() -> (state: Self)
        ensures
            state@ == Seq::<Seq<char>>::empty(),
    {
        let image_paths: Vec<String> = Vec::new();
        proof {
            assert(image_paths.deep_view() =~= Seq::<Seq<char>>::empty());
        }
        AppState { image_paths }
    }

    /// Appends `file_path` to the end of the registry.
    ///
    /// There is no precondition and no re-validation: any string,
    /// including the path of a missing file or one with an unsupported
    /// extension, is stored exactly as given.  This direct append is a
    /// deliberate capability split against the validating startup
    /// ingestion.
    pub fn add_image(&mut self, file_path: String)
        ensures
            final(self)@ == old(self)@.push(file_path@),
    {
        let ghost previous = self.image_paths.deep_view();
        let ghost appended = file_path@;
        self.image_paths.push(file_path);
        proof {
            assert(self.image_paths.deep_view() =~= previous.push(appended));
        }
    }

    /// Returns a snapshot copy of all stored paths, in insertion order.
    pub fn get_image_paths(&self) -> (paths: Vec<String>)
        ensures
            paths.deep_view() == self@,
    {
        let mut paths: Vec<String> = Vec::new();
        let mut i: usize = 0;
        while i < self.image_paths.len()
            invariant
                i <= self.image_paths.len(),
                paths.deep_view() == self@.take(i as int),
            decreases self.image_paths.len() - i,
        {
            let ghost previous = paths.deep_view();
            paths.push(self.image_paths[i].clone());
            proof {
                assert(paths.deep_view() =~= previous.push(self.image_paths@[i as int]@));
                assert(previous.push(self.image_paths@[i as int]@) =~= self@.take(i + 1));
            }
            i = i + 1;
        }
        proof {
            assert(self@.take(i as int) =~= self@);
        }
        paths
    }
}

/// The value a chain of appends leaves in a registry that started as
/// `initial`: each path of `appended` is pushed in turn, exactly as one
/// `add_image` call pushes it.
pub open spec fn after_appends(initial: Seq<Seq<char>>, appended: Seq<Seq<char>>) -> Seq<Seq<char>>
    decreases appended.len(),
{
    if appended.len() == 0 {
        initial
    } else {
        after_appends(initial, appended.drop_last()).push(appended.last())
    }
}

/// Serialized appends lose no update: after any number of `add_image`
/// steps, the registry holds every appended path, in order, behind the
/// initial contents, and its length is the initial length plus the
/// number of appends issued.
pub proof fn lemma_no_lost_appends(initial: Seq<Seq<char>>, appended: Seq<Seq<char>>)
    ensures
        after_appends(initial, appended) == initial + appended,
        after_appends(initial, appended).len() == initial.len() + appended.len(),
    decreases appended.len(),
{
    if appended.len() == 0 {
        assert(after_appends(initial, appended) =~= initial + appended);
    } else {
        lemma_no_lost_appends(initial, appended.drop_last());
        assert(after_appends(initial, appended) =~= initial + appended);
    }
}

/// Two reads with no intervening append agree: `get_image_paths`
/// returns exactly the registry's contents, so two calls on the same
/// registry value return identical sequences.
pub proof fn lemma_reads_agree(
    state: AppState,
    first: Seq<Seq<char>>,
    second: Seq<Seq<char>>,
)
    requires
        first == state@,
        second == state@,
    ensures
        first == second,
{
}

} // verus!
