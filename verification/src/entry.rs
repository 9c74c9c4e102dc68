//! One correspondence between an offset in the generated module and a
//! position in the sources it was compiled from.

use vstd::prelude::*;

verus! {

/// A position in a source file.
#[derive(Debug, PartialEq, Eq)]
pub struct SourcePosition {
    /// The name of the source file.
    pub source: String,
    /// The line, counted from one.
    pub line: u32,
    /// The column, counted from zero.
    pub column: u32,
}

/// The mathematical content of a [`SourcePosition`].
pub struct SourcePositionView {
    pub source: Seq<char>,
    pub line: int,
    pub column: int,
}

impl View for SourcePosition {
    type V = SourcePositionView;

    open spec fn view(&self) -> SourcePositionView {
        SourcePositionView {
            source: self.source@,
            line: self.line as int,
            column: self.column as int,
        }
    }
}

/// An offset in the generated module, with the source position it came
/// from. An entry without a position marks code that no source line
/// accounts for. File, line and column are present together or not at all.
#[derive(Debug, PartialEq, Eq)]
pub struct MappingEntry {
    pub generated_offset: u32,
    pub position: Option<SourcePosition>,
}

/// The mathematical content of a [`MappingEntry`].
pub struct MappingEntryView {
    pub generated_offset: int,
    pub position: Option<SourcePositionView>,
}

impl View for MappingEntry {
    type V = MappingEntryView;

    open spec fn view(&self) -> MappingEntryView {
        MappingEntryView {
            generated_offset: self.generated_offset as int,
            position: match self.position {
                Some(p) => Some(p@),
                None => None,
            },
        }
    }
}

impl Clone for SourcePosition {
    fn clone(&self) -> (copy: Self)
        ensures
            copy == *self,
    {
        SourcePosition { source: self.source.clone(), line: self.line, column: self.column }
    }
}

impl Clone for MappingEntry {
    fn clone(&self) -> (copy: Self)
        ensures
            copy == *self,
    {
        let position = match &self.position {
            Some(p) => Some(p.clone()),
            None => None,
        };
        MappingEntry { generated_offset: self.generated_offset, position }
    }
}

impl MappingEntry {
    /// An entry for code that no source line accounts for.
    pub fn unattributed(generated_offset: u32) -> (entry: MappingEntry)
        ensures
            entry@ == (MappingEntryView {
                generated_offset: generated_offset as int,
                position: None,
            }),
    {
        MappingEntry { generated_offset, position: None }
    }

    /// An entry for code that came from the given line and column of a
    /// source file.
    pub fn attributed(generated_offset: u32, source: String, line: u32, column: u32) -> (entry:
        MappingEntry)
        ensures
            entry@ == (MappingEntryView {
                generated_offset: generated_offset as int,
                position: Some(
                    SourcePositionView {
                        source: source@,
                        line: line as int,
                        column: column as int,
                    },
                ),
            }),
    {
        MappingEntry { generated_offset, position: Some(SourcePosition { source, line, column }) }
    }

    /// Whether the entry has a source position.
    pub fn is_attributed(&self) -> (yes: bool)
        ensures
            yes == self@.position.is_some(),
    {
        self.position.is_some()
    }

    /// The name of the source file, where the entry has a source position.
    pub fn source(&self) -> (name: Option<&String>)
        ensures
            match name {
                Some(s) => self@.position.is_some() && self@.position.unwrap().source == s@,
                None => self@.position.is_none(),
            },
    {
        match &self.position {
            Some(p) => Some(&p.source),
            None => None,
        }
    }

    /// The line, counted from one, where the entry has a source position.
    pub fn line(&self) -> (line: Option<u32>)
        ensures
            match line {
                Some(n) => self@.position.is_some() && self@.position.unwrap().line == n,
                None => self@.position.is_none(),
            },
    {
        match &self.position {
            Some(p) => Some(p.line),
            None => None,
        }
    }

    /// The column, counted from zero, where the entry has a source
    /// position.
    pub fn column(&self) -> (column: Option<u32>)
        ensures
            match column {
                Some(n) => self@.position.is_some() && self@.position.unwrap().column == n,
                None => self@.position.is_none(),
            },
    {
        match &self.position {
            Some(p) => Some(p.column),
            None => None,
        }
    }
}

/// The contents of a sequence of entries.
pub open spec fn entry_views(entries: Seq<MappingEntry>) -> Seq<MappingEntryView> {
    entries.map_values(|e: MappingEntry| e@)
}

/// The contents of a list of source names.
pub open spec fn source_names(sources: Seq<String>) -> Seq<Seq<char>> {
    sources.map_values(|s: String| s@)
}

} // verus!
