//! The editing session: a live document behind a bounded linear undo/redo
//! history, and the editor-level entry points of the codec, the compositor
//! and the hit-tester.
//!
//! `record` truncates the stack at the cursor and pushes a snapshot of the
//! live document; `undo` and `redo` move the cursor and replace the live
//! document with the snapshot there.  A `record` after an `undo` therefore
//! permanently discards the undone branch.  No history operation ever
//! fails; out-of-range calls are silently absorbed.

use crate::codec::{decode, encode, spec_decode, spec_encode, encodable, ContainerError};
use crate::render::{
    hittest_doc, render_sprite_doc, render_tile_doc, spec_hittest, spec_render_sprite,
    spec_render_tile, HittestResult, SpritePixel, TilePixel,
};
use crate::sfsprite::{empty_document, spec_empty_doc, DocView, SFSpriteFileHeader};
use vstd::prelude::*;

verus! {

/// Mathematical view of an editing session: the live document, the
/// snapshot stack, and the cursor one past the last active snapshot.
#[verifier::ext_equal]
pub struct EditorView {
    pub doc: DocView,
    pub stack: Seq<DocView>,
    pub cursor: int,
}

/// One `record`: drop every snapshot at or after the cursor, push a copy
/// of the live document, advance the cursor.
pub open spec fn spec_record(s: EditorView) -> EditorView {
    EditorView { doc: s.doc, stack: s.stack.take(s.cursor) + seq![s.doc], cursor: s.cursor + 1 }
}

/// One `undo`: a no-op at cursor 0, else step the cursor down and restore
/// the snapshot there.
pub open spec fn spec_undo(s: EditorView) -> EditorView {
    if s.cursor <= 0 {
        s
    } else {
        EditorView { doc: s.stack[s.cursor - 1], stack: s.stack, cursor: s.cursor - 1 }
    }
}

/// One `redo`: a no-op at the top of the stack, else restore the snapshot
/// at the cursor and step it up.
pub open spec fn spec_redo(s: EditorView) -> EditorView {
    if s.cursor >= s.stack.len() {
        s
    } else {
        EditorView { doc: s.stack[s.cursor], stack: s.stack, cursor: s.cursor + 1 }
    }
}

/// `undo` applied `n` times.
pub open spec fn spec_undo_n(s: EditorView, n: nat) -> EditorView
    decreases n,
{
    if n == 0 {
        s
    } else {
        spec_undo(spec_undo_n(s, (n - 1) as nat))
    }
}

/// Any number of undos on a session that has never recorded (cursor 0) is
/// a no-op.
pub proof fn lemma_undo_noop_when_fresh(s: EditorView, n: nat)
    requires
        s.cursor == 0,
    ensures
        spec_undo_n(s, n) == s,
    decreases n,
{
    if n > 0 {
        lemma_undo_noop_when_fresh(s, (n - 1) as nat);
    }
}

/// With the cursor at `n`, exactly `n` undos walk back to the bottom
/// snapshot — the document recorded first — and a further undo is a no-op.
pub proof fn lemma_undo_returns_to_bottom(s: EditorView, n: nat)
    requires
        s.cursor == n,
        n <= s.stack.len(),
    ensures
        n > 0 ==> spec_undo_n(s, n).doc == s.stack[0],
        n == 0 ==> spec_undo_n(s, n).doc == s.doc,
        spec_undo_n(s, n).cursor == 0,
        spec_undo_n(s, n).stack == s.stack,
        spec_undo(spec_undo_n(s, n)) == spec_undo_n(s, n),
    decreases n,
{
    if n > 0 {
        let s1 = spec_undo(s);
        assert(spec_undo_n(s, n) == spec_undo_n(s1, (n - 1) as nat)) by {
            lemma_undo_n_shift(s, (n - 1) as nat);
        }
        lemma_undo_returns_to_bottom(s1, (n - 1) as nat);
    }
}

/// Undoing `n + 1` times is undoing once, then `n` times.
proof fn lemma_undo_n_shift(s: EditorView, n: nat)
    ensures
        spec_undo_n(s, n + 1) == spec_undo_n(spec_undo(s), n),
    decreases n,
{
    if n == 0 {
        assert(spec_undo_n(s, 1) == spec_undo(spec_undo_n(s, 0)));
        assert(spec_undo_n(spec_undo(s), 0) == spec_undo(s));
    } else {
        lemma_undo_n_shift(s, (n - 1) as nat);
    }
}

/// An editing session: the live document and its snapshot history.
pub struct SFSpriteEditor {
    data: SFSpriteFileHeader,
    redo_stack: Vec<SFSpriteFileHeader>,
    redo_index: usize,
}

impl View for SFSpriteEditor {
    type V = EditorView;

    closed spec fn view(&self) -> EditorView {
        EditorView {
            doc: self.data@,
            stack: self.redo_stack@.map_values(|d: SFSpriteFileHeader| d@),
            cursor: self.redo_index as int,
        }
    }
}

impl Clone for SFSpriteEditor {
    /// A deep copy of the whole session: the live document and every
    /// snapshot, sharing nothing with the source.
    fn clone(&self) -> (r: Self)
        ensures
            r@ == self@,
    {
        let mut stack: Vec<SFSpriteFileHeader> = Vec::new();
        let mut i: usize = 0;
        while i < self.redo_stack.len()
            invariant
                0 <= i <= self.redo_stack@.len(),
                stack@.len() == i,
                forall|j: int| 0 <= j < i ==> (#[trigger] stack@[j])@ == self.redo_stack@[j]@,
            decreases self.redo_stack@.len() - i,
        {
            stack.push(self.redo_stack[i].clone());
            i = i + 1;
        }
        let r = SFSpriteEditor {
            data: self.data.clone(),
            redo_stack: stack,
            redo_index: self.redo_index,
        };
        proof {
            assert(r@.stack =~= self@.stack);
            assert(r@ =~~= self@);
        }
        r
    }
}

impl SFSpriteEditor {
    /// The session's invariant: the cursor never runs past the stack.
    /// Every constructor establishes it and every operation keeps it.
    pub open spec fn wf(self) -> bool {
        0 <= self@.cursor <= self@.stack.len()
    }

    /// A fresh editor: the empty document, no history.
    pub fn new() -> (r: SFSpriteEditor)
        ensures
            r.wf(),
            r@.doc == spec_empty_doc(),
            r@.stack == Seq::<DocView>::empty(),
            r@.cursor == 0,
    {
        let r = SFSpriteEditor { data: empty_document(), redo_stack: Vec::new(), redo_index: 0 };
        proof {
            assert(r@.stack =~= Seq::<DocView>::empty());
        }
        r
    }

    /// Starts a session on a document already in memory, with the document
    /// itself as the single bottom snapshot.
    pub fn from_document(data: SFSpriteFileHeader) -> (r: SFSpriteEditor)
        ensures
            r.wf(),
            r@.doc == data@,
            r@.stack == seq![data@],
            r@.cursor == 0,
    {
        let mut stack: Vec<SFSpriteFileHeader> = Vec::new();
        stack.push(data.clone());
        let r = SFSpriteEditor { data, redo_stack: stack, redo_index: 0 };
        proof {
            assert(r@.stack =~= seq![r.data@]);
        }
        r
    }

    /// The live document.
    pub fn document(&self) -> (r: &SFSpriteFileHeader)
        ensures
            r@ == self@.doc,
    {
        &self.data
    }

    /// Decodes a container into a fresh session whose single snapshot is
    /// the decoded document; a rejected container is handed back as the
    /// decoder's error.
    pub fn from_data(data: &[u8]) -> (r: Result<SFSpriteEditor, ContainerError>)
        ensures
            match r {
                Ok(ed) => {
                    &&& ed.wf()
                    &&& spec_decode(data@) == Ok::<DocView, ContainerError>(ed@.doc)
                    &&& ed@.stack == seq![ed@.doc]
                    &&& ed@.cursor == 0
                },
                Err(e) => spec_decode(data@) == Err::<DocView, ContainerError>(e),
            },
    {
        match decode(data) {
            Ok(doc) => Ok(Self::from_document(doc)),
            Err(e) => Err(e),
        }
    }

    /// Replaces the session by one on the decoded container; on a rejected
    /// container the session is left untouched and the decoder's error
    /// returned.
    pub fn load_from_data(&mut self, buffer: &[u8]) -> (r: Result<(), ContainerError>)
        ensures
            match r {
                Ok(()) => {
                    &&& final (self).wf()
                    &&& spec_decode(buffer@) == Ok::<DocView, ContainerError>(final (self)@.doc)
                    &&& final (self)@.stack == seq![final (self)@.doc]
                    &&& final (self)@.cursor == 0
                },
                Err(e) => {
                    &&& spec_decode(buffer@) == Err::<DocView, ContainerError>(e)
                    &&& final (self)@ == old(self)@
                },
            },
    {
        match decode(buffer) {
            Ok(doc) => {
                let mut stack: Vec<SFSpriteFileHeader> = Vec::new();
                stack.push(doc.clone());
                self.data = doc;
                self.redo_stack = stack;
                self.redo_index = 0;
                proof {
                    assert(self@.stack =~= seq![self@.doc]);
                }
                Ok(())
            },
            Err(e) => Err(e),
        }
    }

    /// Serializes the live document; succeeds exactly on encodable
    /// documents and then returns exactly the bytes of `spec_encode`.
    pub fn export_to_buffer(&self) -> (r: Result<Vec<u8>, ContainerError>)
        ensures
            match r {
                Ok(b) => encodable(self@.doc) && b@ == spec_encode(self@.doc),
                Err(e) => !encodable(self@.doc) && e == ContainerError::MalformedSection,
            },
    {
        encode(&self.data)
    }

    /// Renders one tile of the live document; see
    /// [`crate::render::spec_render_tile`].
    pub fn render_tile(&self, index: usize, palette_id: usize) -> (r: Vec<TilePixel>)
        ensures
            r@ == spec_render_tile(self@.doc, index as int, palette_id as int),
    {
        render_tile_doc(&self.data, index, palette_id)
    }

    /// Renders one sprite of the live document; see
    /// [`crate::render::spec_render_sprite`].
    pub fn render_sprite(
        &self,
        index: usize,
        palette_id: usize,
        transparent: bool,
    ) -> (r: Vec<SpritePixel>)
        ensures
            r@ == spec_render_sprite(self@.doc, index as int, palette_id as int, transparent),
    {
        render_sprite_doc(&self.data, index, palette_id, transparent)
    }

    /// Hit-tests one screen coordinate against one sprite of the live
    /// document; see [`crate::render::spec_hittest`].
    pub fn hittest(
        &self,
        sprite_id: usize,
        hit_x: isize,
        hit_y: isize,
        transparent: bool,
    ) -> (r: Option<HittestResult>)
        ensures
            r == spec_hittest(self@.doc, sprite_id as int, hit_x as int, hit_y as int, transparent),
    {
        hittest_doc(&self.data, sprite_id, hit_x, hit_y, transparent)
    }

    /// Writes one pixel byte of one tile of the live document.  The tile
    /// and pixel must lie inside the tile data and the value must fit a
    /// byte; anything else is refused as `IndexOutOfRange` with the
    /// session untouched.
    pub fn set_pixel_by_index(
        &mut self,
        tile_id: usize,
        pixel_index: usize,
        color_index: usize,
    ) -> (r: Result<(), ContainerError>)
        ensures
            match r {
                Ok(()) => {
                    &&& pixel_index < 64
                    &&& color_index < 256
                    &&& tile_id * 64 + 64 <= old(self)@.doc.tileset.data.len()
                    &&& final (self)@.doc.tileset.data == old(self)@.doc.tileset.data.update(
                        tile_id * 64 + pixel_index,
                        color_index as u8,
                    )
                    &&& final (self)@.doc.tileset.entries == old(self)@.doc.tileset.entries
                    &&& final (self)@.doc.tileset.max_tiles == old(self)@.doc.tileset.max_tiles
                    &&& final (self)@.doc.palette == old(self)@.doc.palette
                    &&& final (self)@.doc.animations == old(self)@.doc.animations
                    &&& final (self)@.doc.sprites == old(self)@.doc.sprites
                    &&& final (self)@.doc.tile_number_shift == old(self)@.doc.tile_number_shift
                    &&& final (self)@.stack == old(self)@.stack
                    &&& final (self)@.cursor == old(self)@.cursor
                },
                Err(e) => {
                    &&& e == ContainerError::IndexOutOfRange
                    &&& !(pixel_index < 64 && color_index < 256 && tile_id * 64 + 64 <= old(
                        self,
                    )@.doc.tileset.data.len())
                    &&& final (self)@ == old(self)@
                },
            },
    {
        if pixel_index >= 64 || color_index >= 256 {
            return Err(ContainerError::IndexOutOfRange);
        }
        let data_len: usize = self.data.tileset_header.tileset_data.len();
        if tile_id > usize::MAX / 64 || tile_id * 64 > usize::MAX - 64 || tile_id * 64 + 64
            > data_len {
            return Err(ContainerError::IndexOutOfRange);
        }
        self.data.tileset_header.tileset_data[tile_id * 64 + pixel_index] = color_index as u8;
        Ok(())
    }

    /// Commits the live document: drops every snapshot at or after the
    /// cursor, pushes a copy, advances the cursor.  Exactly
    /// [`spec_record`].
    pub fn record(&mut self)
        requires
            old(self).wf(),
        ensures
            final (self).wf(),
            final (self)@ == spec_record(old(self)@),
    {
        let ghost prev = self@;
        self.redo_stack.truncate(self.redo_index);
        self.redo_stack.push(self.data.clone());
        proof {
            assert(self@.stack =~= prev.stack.take(prev.cursor) + seq![prev.doc]);
        }
        self.redo_index = self.redo_stack.len();
        proof {
            assert(self@ =~~= spec_record(prev));
        }
    }

    /// Steps the history back one snapshot; a no-op at the bottom.
    /// Exactly [`spec_undo`].
    pub fn undo(&mut self)
        requires
            old(self).wf(),
        ensures
            final (self).wf(),
            final (self)@ == spec_undo(old(self)@),
    {
        let ghost prev = self@;
        if self.redo_index > 0 {
            self.redo_index = self.redo_index - 1;
            self.data = self.redo_stack[self.redo_index].clone();
        }
        proof {
            assert(self@ =~~= spec_undo(prev));
        }
    }

    /// Steps the history forward one snapshot; a no-op at the top.
    /// Exactly [`spec_redo`].
    pub fn redo(&mut self)
        requires
            old(self).wf(),
        ensures
            final (self).wf(),
            final (self)@ == spec_redo(old(self)@),
    {
        let ghost prev = self@;
        if self.redo_index < self.redo_stack.len() {
            self.redo_index = self.redo_index + 1;
            self.data = self.redo_stack[self.redo_index - 1].clone();
        }
        proof {
            assert(self@ =~~= spec_redo(prev));
        }
    }
}


impl Default for SFSpriteEditor {
    /// A fresh session on the empty document.
    fn default() -> (r: Self)
        ensures
            r.wf(),
            r@.doc == spec_empty_doc(),
            r@.stack == Seq::<DocView>::empty(),
            r@.cursor == 0,
    {
        SFSpriteEditor::new()
    }
}

} // verus!
