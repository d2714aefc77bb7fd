use vstd::prelude::*;

verus! {

/// The set of symbols a border is drawn with.
#[derive(Debug, Clone, Copy, PartialEq, Eq, Structural)]
pub enum BorderType {
    Solid,
    Round,
    Double,
    Thick,
    Outer,
    Inner,
    Wide,
    Tall,
    ThickWide,
    ThickTall,
    ThickFull,
    Empty,
}

impl Default for BorderType {
    /// A plain solid border.
    fn default() -> (r: BorderType)
        ensures
            r == BorderType::Solid,
    {
        BorderType::Solid
    }
}

/// The border a component draws in each of its states.
#[derive(Debug, Clone, Copy, PartialEq, Eq, Structural)]
pub struct BorderProperties {
    pub primary: BorderType,
    pub active: BorderType,
    pub hovered: BorderType,
    pub disabled: BorderType,
}

impl Default for BorderProperties {
    /// Solid borders in every state.
    fn default() -> (r: BorderProperties)
        ensures
            r == (BorderProperties {
                primary: BorderType::Solid,
                active: BorderType::Solid,
                hovered: BorderType::Solid,
                disabled: BorderType::Solid,
            }),
    {
        BorderProperties {
            primary: BorderType::default(),
            active: BorderType::default(),
            hovered: BorderType::default(),
            disabled: BorderType::default(),
        }
    }
}

/// The borders of the default theme: round, double when active or hovered, inner when disabled.
pub fn default_border_properties() -> (r: BorderProperties)
    ensures
        r == (BorderProperties {
            primary: BorderType::Round,
            active: BorderType::Double,
            hovered: BorderType::Double,
            disabled: BorderType::Inner,
        }),
{
    BorderProperties {
        primary: BorderType::Round,
        active: BorderType::Double,
        hovered: BorderType::Double,
        disabled: BorderType::Inner,
    }
}

/// The sides of a box that carry a border.
#[derive(Debug, Clone, Copy, PartialEq, Eq, Structural)]
pub struct BorderSides {
    pub top: bool,
    pub bottom: bool,
    pub left: bool,
    pub right: bool,
}

/// The room, in cells, that a border takes on each side of a box.
#[derive(Debug, Clone, Copy, PartialEq, Eq, Structural)]
pub struct BorderInsets {
    pub top: u16,
    pub bottom: u16,
    pub left: u16,
    pub right: u16,
}

/// The borders drawn around a node: on which sides, with which symbols, under which titles.
#[derive(Debug)]
pub struct Borders {
    sides: BorderSides,
    border_type: BorderType,
    titles: Vec<String>,
}

impl View for Borders {
    type V = (BorderSides, BorderType, Seq<Seq<char>>);

    closed spec fn view(&self) -> (BorderSides, BorderType, Seq<Seq<char>>) {
        (self.sides, self.border_type, self.titles@.map_values(|t: String| t@))
    }
}

/// The sides of no border at all.
pub open spec fn no_sides() -> BorderSides {
    BorderSides { top: false, bottom: false, left: false, right: false }
}

impl Default for Borders {
    /// No border on any side, solid symbols, no title.
    fn default() -> (r: Borders)
        ensures
            r@ == (no_sides(), BorderType::Solid, Seq::<Seq<char>>::empty()),
    {
        Borders::with_sides(BorderSides { top: false, bottom: false, left: false, right: false })
    }
}

/// One cell of room where `side` carries a border, none where it does not.
pub open spec fn inset(side: bool) -> u16 {
    if side {
        1
    } else {
        0
    }
}

impl Borders {
    /// Borders on `sides`, with solid symbols and no title.
    fn with_sides(sides: BorderSides) -> (r: Borders)
        ensures
            r@ == (sides, BorderType::Solid, Seq::<Seq<char>>::empty()),
    {
        let r = Borders { sides, border_type: BorderType::Solid, titles: Vec::new() };
        proof {
            assert(r@.2 =~= Seq::<Seq<char>>::empty());
        }
        r
    }

    /// Borders on all four sides.
    pub fn all() -> (r: Borders)
        ensures
            r@ == (BorderSides { top: true, bottom: true, left: true, right: true }, BorderType::Solid, Seq::<Seq<char>>::empty()),
    {
        Borders::with_sides(BorderSides { top: true, bottom: true, left: true, right: true })
    }

    /// A border on the top side only.
    pub fn top() -> (r: Borders)
        ensures
            r@ == (BorderSides { top: true, ..no_sides() }, BorderType::Solid, Seq::<Seq<char>>::empty()),
    {
        Borders::with_sides(BorderSides { top: true, bottom: false, left: false, right: false })
    }

    /// A border on the bottom side only.
    pub fn bottom() -> (r: Borders)
        ensures
            r@ == (BorderSides { bottom: true, ..no_sides() }, BorderType::Solid, Seq::<Seq<char>>::empty()),
    {
        Borders::with_sides(BorderSides { top: false, bottom: true, left: false, right: false })
    }

    /// A border on the left side only.
    pub fn left() -> (r: Borders)
        ensures
            r@ == (BorderSides { left: true, ..no_sides() }, BorderType::Solid, Seq::<Seq<char>>::empty()),
    {
        Borders::with_sides(BorderSides { top: false, bottom: false, left: true, right: false })
    }

    /// A border on the right side only.
    pub fn right() -> (r: Borders)
        ensures
            r@ == (BorderSides { right: true, ..no_sides() }, BorderType::Solid, Seq::<Seq<char>>::empty()),
    {
        Borders::with_sides(BorderSides { top: false, bottom: false, left: false, right: true })
    }

    /// Borders on the left and right sides.
    pub fn x() -> (r: Borders)
        ensures
            r@ == (BorderSides { left: true, right: true, ..no_sides() }, BorderType::Solid, Seq::<Seq<char>>::empty()),
    {
        Borders::with_sides(BorderSides { top: false, bottom: false, left: true, right: true })
    }

    /// Borders on the top and bottom sides.
    pub fn y() -> (r: Borders)
        ensures
            r@ == (BorderSides { top: true, bottom: true, ..no_sides() }, BorderType::Solid, Seq::<Seq<char>>::empty()),
    {
        Borders::with_sides(BorderSides { top: true, bottom: true, left: false, right: false })
    }

    /// The same borders drawn with `border_type`.
    pub fn border_type(self, border_type: BorderType) -> (r: Borders)
        ensures
            r@ == (self@.0, border_type, self@.2),
    {
        Borders { border_type, ..self }
    }

    /// The same borders drawn with solid lines.
    pub fn solid(self) -> (r: Borders)
        ensures
            r@ == (self@.0, BorderType::Solid, self@.2),
    {
        self.border_type(BorderType::Solid)
    }

    /// The same borders drawn with rounded corners.
    pub fn round(self) -> (r: Borders)
        ensures
            r@ == (self@.0, BorderType::Round, self@.2),
    {
        self.border_type(BorderType::Round)
    }

    /// The same borders drawn with double lines.
    pub fn double(self) -> (r: Borders)
        ensures
            r@ == (self@.0, BorderType::Double, self@.2),
    {
        self.border_type(BorderType::Double)
    }

    /// The same borders drawn with thick lines.
    pub fn thick(self) -> (r: Borders)
        ensures
            r@ == (self@.0, BorderType::Thick, self@.2),
    {
        self.border_type(BorderType::Thick)
    }

    /// The same borders drawn with quadrant blocks outside the box.
    pub fn outer(self) -> (r: Borders)
        ensures
            r@ == (self@.0, BorderType::Outer, self@.2),
    {
        self.border_type(BorderType::Outer)
    }

    /// The same borders drawn with quadrant blocks inside the box.
    pub fn inner(self) -> (r: Borders)
        ensures
            r@ == (self@.0, BorderType::Inner, self@.2),
    {
        self.border_type(BorderType::Inner)
    }

    /// The same borders drawn with one-eighth wide blocks.
    pub fn wide(self) -> (r: Borders)
        ensures
            r@ == (self@.0, BorderType::Wide, self@.2),
    {
        self.border_type(BorderType::Wide)
    }

    /// The same borders drawn with one-eighth tall blocks.
    pub fn tall(self) -> (r: Borders)
        ensures
            r@ == (self@.0, BorderType::Tall, self@.2),
    {
        self.border_type(BorderType::Tall)
    }

    /// The same borders drawn with proportional wide blocks.
    pub fn thick_wide(self) -> (r: Borders)
        ensures
            r@ == (self@.0, BorderType::ThickWide, self@.2),
    {
        self.border_type(BorderType::ThickWide)
    }

    /// The same borders drawn with proportional tall blocks.
    pub fn thick_tall(self) -> (r: Borders)
        ensures
            r@ == (self@.0, BorderType::ThickTall, self@.2),
    {
        self.border_type(BorderType::ThickTall)
    }

    /// The same borders drawn with full blocks.
    pub fn thick_full(self) -> (r: Borders)
        ensures
            r@ == (self@.0, BorderType::ThickFull, self@.2),
    {
        self.border_type(BorderType::ThickFull)
    }

    /// The same borders drawn with blank symbols.
    pub fn empty(self) -> (r: Borders)
        ensures
            r@ == (self@.0, BorderType::Empty, self@.2),
    {
        self.border_type(BorderType::Empty)
    }

    /// The same borders with `title` added after the titles they have.
    pub fn title(self, title: String) -> (r: Borders)
        ensures
            r@ == (self@.0, self@.1, self@.2.push(title@)),
    {
        let mut titles = self.titles;
        titles.push(title);
        let r = Borders { sides: self.sides, border_type: self.border_type, titles };
        proof {
            assert(r@.2 =~= self@.2.push(title@));
        }
        r
    }

    /// The room the borders take on each side: one cell on a bordered side, none elsewhere.
    pub fn to_rect(&self) -> (r: BorderInsets)
        ensures
            r == (BorderInsets {
                top: inset(self@.0.top),
                bottom: inset(self@.0.bottom),
                left: inset(self@.0.left),
                right: inset(self@.0.right),
            }),
    {
        let mut rect = BorderInsets { top: 0, bottom: 0, left: 0, right: 0 };
        if self.sides.top {
            rect.top = 1;
        }
        if self.sides.bottom {
            rect.bottom = 1;
        }
        if self.sides.left {
            rect.left = 1;
        }
        if self.sides.right {
            rect.right = 1;
        }
        rect
    }
}

} // verus!
