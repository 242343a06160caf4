use vstd::prelude::*;

verus! {

/// The glyphs that frames, lists and progress bars are drawn with.
#[derive(Debug, Clone, Copy, PartialEq, Eq, Structural)]
pub enum BoxSymbols {
    TopLeft,
    TopRight,
    BottomLeft,
    BottomRight,
    Vertical,
    Horizontal,
    ListCursor,
    TitlePrefix,
    TitleSuffix,
    ProgressBlock,
}

impl BoxSymbols {
    /// The plain glyph, for consoles with few characters.
    pub open spec fn simple_glyph(self) -> Seq<char> {
        match self {
            BoxSymbols::TopLeft => "/"@,
            BoxSymbols::TopRight => "\\"@,
            BoxSymbols::BottomLeft => "\\"@,
            BoxSymbols::BottomRight => "/"@,
            BoxSymbols::Vertical => "|"@,
            BoxSymbols::Horizontal => "-"@,
            BoxSymbols::ListCursor => ">"@,
            BoxSymbols::TitlePrefix => "["@,
            BoxSymbols::TitleSuffix => "]"@,
            BoxSymbols::ProgressBlock => "█"@,
        }
    }

    /// The box-drawing glyph.
    pub open spec fn fancy_glyph(self) -> Seq<char> {
        match self {
            BoxSymbols::TopLeft => "┏"@,
            BoxSymbols::TopRight => "┓"@,
            BoxSymbols::BottomLeft => "┗"@,
            BoxSymbols::BottomRight => "┛"@,
            BoxSymbols::Vertical => "┃"@,
            BoxSymbols::Horizontal => "━"@,
            BoxSymbols::ListCursor => "▶"@,
            BoxSymbols::TitlePrefix => "┫"@,
            BoxSymbols::TitleSuffix => "┣"@,
            BoxSymbols::ProgressBlock => "█"@,
        }
    }

    fn simple(&self) -> (r: &str)
        ensures
            r@ == self.simple_glyph(),
    {
        match self {
            BoxSymbols::TopLeft => "/",
            BoxSymbols::TopRight => "\\",
            BoxSymbols::BottomLeft => "\\",
            BoxSymbols::BottomRight => "/",
            BoxSymbols::Vertical => "|",
            BoxSymbols::Horizontal => "-",
            BoxSymbols::ListCursor => ">",
            BoxSymbols::TitlePrefix => "[",
            BoxSymbols::TitleSuffix => "]",
            BoxSymbols::ProgressBlock => "█",
        }
    }

    fn fancy(&self) -> (r: &str)
        ensures
            r@ == self.fancy_glyph(),
    {
        match self {
            BoxSymbols::TopLeft => "┏",
            BoxSymbols::TopRight => "┓",
            BoxSymbols::BottomLeft => "┗",
            BoxSymbols::BottomRight => "┛",
            BoxSymbols::Vertical => "┃",
            BoxSymbols::Horizontal => "━",
            BoxSymbols::ListCursor => "▶",
            BoxSymbols::TitlePrefix => "┫",
            BoxSymbols::TitleSuffix => "┣",
            BoxSymbols::ProgressBlock => "█",
        }
    }

    /// The glyph for `symbol`: the plain set where the console wants it,
    /// the box-drawing set elsewhere.
    pub fn symbol_for_os(symbol: BoxSymbols, plain_console: bool) -> (r: String)
        ensures
            r@ == if plain_console {
                symbol.simple_glyph()
            } else {
                symbol.fancy_glyph()
            },
    {
        if plain_console {
            symbol.simple().to_owned()
        } else {
            symbol.fancy().to_owned()
        }
    }
}

} // verus!
