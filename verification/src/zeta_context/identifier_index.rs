//! The source files of a project with their outlines.
use crate::paths::{is_path_before, law_path_order_is_transitive, path_before};
use crate::zeta_context::outline::{OutlineId, OutlineItem};
use vstd::prelude::*;
use vstd::string::*;
use vstd::utf8::*;

verus! {

/// A source file and the items of its outline.
#[derive(Debug)]
pub struct IndexedFile {
    pub path: String,
    pub source: String,
    pub items: Vec<OutlineItem>,
}

/// The files of a project, in the order of their paths. A file is named by its
/// position.
#[derive(Debug)]
pub struct IdentifierIndex {
    pub files: Vec<IndexedFile>,
}

/// The first item from `k` on that has a number.
pub open spec fn item_from(items: Seq<OutlineItem>, id: OutlineId, k: int) -> Option<int>
    decreases items.len() - k,
{
    if k >= items.len() {
        None
    } else if items[k].id == id {
        Some(k)
    } else {
        item_from(items, id, k + 1)
    }
}

/// The first file from `f` on that holds an item with a number, and the item's
/// position in it.
pub open spec fn located_from(files: Seq<IndexedFile>, id: OutlineId, f: int) -> Option<(int, int)>
    decreases files.len() - f,
{
    if f >= files.len() {
        None
    } else {
        match item_from(files[f].items@, id, 0) {
            Some(k) => Some((f, k)),
            None => located_from(files, id, f + 1),
        }
    }
}

/// Whether the signature of an item lies in the text.
pub open spec fn signature_fits(item: OutlineItem, bytes: Seq<u8>) -> bool {
    &&& item.signature_range.start <= item.signature_range.end
    &&& is_char_boundary(bytes, item.signature_range.start as int)
    &&& is_char_boundary(bytes, item.signature_range.end as int)
}

/// Whether files stand in the order of their paths, none twice.
pub open spec fn paths_ascend(files: Seq<IndexedFile>) -> bool {
    forall|f: int, g: int|
        0 <= f < g < files.len() ==> path_before(
            (#[trigger] files[f]).path@,
            (#[trigger] files[g]).path@,
        )
}

/// Files whose neighbours are in order are all in order.
proof fn lemma_neighbours_ascend(files: Seq<IndexedFile>)
    requires
        forall|g: int|
            0 < g < files.len() ==> path_before(files[g - 1].path@, (#[trigger] files[g]).path@),
    ensures
        paths_ascend(files),
{
    assert forall|f: int, g: int| 0 <= f < g < files.len() implies path_before(
        (#[trigger] files[f]).path@,
        (#[trigger] files[g]).path@,
    ) by {
        lemma_ascends_to(files, f, g);
    }
}

proof fn lemma_ascends_to(files: Seq<IndexedFile>, f: int, g: int)
    requires
        0 <= f < g < files.len(),
        forall|h: int|
            0 < h < files.len() ==> path_before(files[h - 1].path@, (#[trigger] files[h]).path@),
    ensures
        path_before(files[f].path@, files[g].path@),
    decreases g - f,
{
    assert(path_before(files[g - 1].path@, files[g].path@));
    if f < g - 1 {
        lemma_ascends_to(files, f, g - 1);
        law_path_order_is_transitive(files[f].path@, files[g - 1].path@, files[g].path@);
    }
}

impl IdentifierIndex {
    /// The file and the position of an item.
    pub open spec fn located(&self, id: OutlineId) -> Option<(int, int)> {
        located_from(self.files@, id, 0)
    }

    /// The item with a number.
    pub open spec fn item_of(&self, id: OutlineId) -> OutlineItem
        recommends
            self.located(id) is Some,
    {
        let (f, k) = self.located(id)->0;
        self.files@[f].items@[k]
    }

    /// The encoded text of a file.
    pub open spec fn source_of(&self, f: int) -> Seq<u8> {
        encode_utf8(self.files@[f].source@)
    }

    /// Whether the files stand in the order of their paths, none twice, and every
    /// item's signature lies in the text of its file.
    pub open spec fn fits(&self) -> bool {
        &&& paths_ascend(self.files@)
        &&& forall|f: int, k: int|
            0 <= f < self.files@.len() && 0 <= k < self.files@[f].items@.len() ==> signature_fits(
                #[trigger] self.files@[f].items@[k],
                self.source_of(f),
            )
    }

    /// An index of files, unless they are out of order or a signature lies outside
    /// its text.
    pub fn new(files: Vec<IndexedFile>) -> (r: Option<Self>)
        ensures
            r is Some <==> (IdentifierIndex { files }).fits(),
            r matches Some(index) ==> index.files == files,
    {
        let index = IdentifierIndex { files };
        let mut f: usize = 0;
        while f < index.files.len()
            invariant
                index.files == files,
                f <= index.files@.len(),
                forall|g: int|
                    0 < g < f ==> path_before(
                        index.files@[g - 1].path@,
                        (#[trigger] index.files@[g]).path@,
                    ),
                forall|g: int, k: int|
                    0 <= g < f && 0 <= k < index.files@[g].items@.len() ==> signature_fits(
                        #[trigger] index.files@[g].items@[k],
                        index.source_of(g),
                    ),
            decreases index.files@.len() - f,
        {
            if f > 0 {
                let before = index.files[f - 1].path.as_str();
                if !is_path_before(before, index.files[f].path.as_str()) {
                    assert(!paths_ascend(index.files@)) by {
                        assert(!path_before(
                            index.files@[f - 1].path@,
                            index.files@[f as int].path@,
                        ));
                    }
                    return None;
                }
            }
            let file = &index.files[f];
            let source = file.source.as_str();
            let mut k: usize = 0;
            while k < file.items.len()
                invariant
                    index.files == files,
                    f < index.files@.len(),
                    *file == index.files@[f as int],
                    source@ == file.source@,
                    k <= file.items@.len(),
                    forall|j: int|
                        0 <= j < k ==> signature_fits(
                            #[trigger] file.items@[j],
                            index.source_of(f as int),
                        ),
                decreases file.items@.len() - k,
            {
                let range = &file.items[k].signature_range;
                if range.start > range.end || !source.is_char_boundary(range.start)
                    || !source.is_char_boundary(range.end) {
                    assert(!signature_fits(
                        index.files@[f as int].items@[k as int],
                        index.source_of(f as int),
                    ));
                    return None;
                }
                k = k + 1;
            }
            f = f + 1;
        }
        proof {
            lemma_neighbours_ascend(index.files@);
        }
        Some(index)
    }

    /// Finds an item by its number.
    pub fn locate(&self, id: OutlineId) -> (r: Option<(usize, usize)>)
        ensures
            match r {
                Some((f, k)) => {
                    &&& self.located(id) == Some((f as int, k as int))
                    &&& f < self.files@.len()
                    &&& k < self.files@[f as int].items@.len()
                },
                None => self.located(id) is None,
            },
    {
        let mut f: usize = 0;
        while f < self.files.len()
            invariant
                f <= self.files@.len(),
                self.located(id) == located_from(self.files@, id, f as int),
            decreases self.files@.len() - f,
        {
            let items = &self.files[f].items;
            let mut k: usize = 0;
            while k < items.len()
                invariant
                    f < self.files@.len(),
                    *items == self.files@[f as int].items,
                    k <= items@.len(),
                    self.located(id) == located_from(self.files@, id, f as int),
                    item_from(items@, id, 0) == item_from(items@, id, k as int),
                decreases items@.len() - k,
            {
                if items[k].id.0 == id.0 {
                    return Some((f, k));
                }
                k = k + 1;
            }
            f = f + 1;
        }
        None
    }
}

/// A located item lies in the index.
pub proof fn lemma_located(index: &IdentifierIndex, id: OutlineId)
    ensures
        index.located(id) matches Some((f, k)) ==> 0 <= f < index.files@.len() && 0 <= k
            < index.files@[f].items@.len() && index.item_of(id).id == id,
{
    lemma_located_from(index.files@, id, 0);
}

proof fn lemma_located_from(files: Seq<IndexedFile>, id: OutlineId, f: int)
    requires
        0 <= f,
    ensures
        located_from(files, id, f) matches Some((g, k)) ==> f <= g < files.len() && 0 <= k
            < files[g].items@.len() && files[g].items@[k].id == id,
    decreases files.len() - f,
{
    if f < files.len() {
        lemma_item_from(files[f].items@, id, 0);
        lemma_located_from(files, id, f + 1);
    }
}

proof fn lemma_item_from(items: Seq<OutlineItem>, id: OutlineId, k: int)
    requires
        0 <= k,
    ensures
        item_from(items, id, k) matches Some(j) ==> k <= j < items.len() && items[j].id == id,
    decreases items.len() - k,
{
    if k < items.len() {
        lemma_item_from(items, id, k + 1);
    }
}

/// A located item has the number and is the first that has it: no earlier file holds
/// one, nor the same file at an earlier position. None is located only where no file
/// holds an item with the number.
pub proof fn law_first_item_is_located(index: &IdentifierIndex, id: OutlineId)
    ensures
        match index.located(id) {
            Some((f, k)) => {
                &&& 0 <= f < index.files@.len()
                &&& 0 <= k < index.files@[f].items@.len()
                &&& index.files@[f].items@[k].id == id
                &&& forall|g: int, j: int|
                    0 <= g <= f && 0 <= j < index.files@[g].items@.len() && (g < f || j < k)
                        ==> (#[trigger] index.files@[g].items@[j]).id != id
            },
            None => forall|g: int, j: int|
                0 <= g < index.files@.len() && 0 <= j < index.files@[g].items@.len() ==> (
                #[trigger] index.files@[g].items@[j]).id != id,
        },
{
    lemma_first_located(index.files@, id, 0);
}

proof fn lemma_first_located(files: Seq<IndexedFile>, id: OutlineId, from: int)
    requires
        0 <= from,
    ensures
        match located_from(files, id, from) {
            Some((f, k)) => {
                &&& from <= f < files.len()
                &&& 0 <= k < files[f].items@.len()
                &&& files[f].items@[k].id == id
                &&& forall|g: int, j: int|
                    from <= g <= f && 0 <= j < files[g].items@.len() && (g < f || j < k) ==> (
                    #[trigger] files[g].items@[j]).id != id
            },
            None => forall|g: int, j: int|
                from <= g < files.len() && 0 <= j < files[g].items@.len() ==> (
                #[trigger] files[g].items@[j]).id != id,
        },
    decreases files.len() - from,
{
    if from < files.len() {
        lemma_first_item(files[from].items@, id, 0);
        lemma_first_located(files, id, from + 1);
    }
}

proof fn lemma_first_item(items: Seq<OutlineItem>, id: OutlineId, from: int)
    requires
        0 <= from,
    ensures
        match item_from(items, id, from) {
            Some(k) => {
                &&& from <= k < items.len()
                &&& items[k].id == id
                &&& forall|j: int| from <= j < k ==> (#[trigger] items[j]).id != id
            },
            None => forall|j: int| from <= j < items.len() ==> (#[trigger] items[j]).id != id,
        },
    decreases items.len() - from,
{
    if from < items.len() {
        lemma_first_item(items, id, from + 1);
    }
}

} // verus!
