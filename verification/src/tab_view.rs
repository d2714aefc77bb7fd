use vstd::prelude::*;

verus! {

/// The header of one tab as the header row measures it.
#[derive(Debug)]
pub struct TabHeader {
    /// The value that names the tab.
    pub value: String,
    /// How many columns the tab's title takes.
    pub title_width: u16,
    /// How many columns the tab's decorator takes (cut to 16 bits), for a tab that has one.
    pub decorator_width: Option<u16>,
}

/// The padding around each title and the width of the dividers between tabs.
#[derive(Debug, Clone, Copy, PartialEq, Eq, Structural)]
pub struct HeaderLayout {
    pub padding_left: u16,
    pub padding_right: u16,
    pub divider_width: u16,
}

/// What a click on the header row asks for: the title or the decorator of a tab.
#[derive(Debug, Clone, Copy, PartialEq, Eq, Structural)]
pub enum TabClick {
    Title(usize),
    Decorator(usize),
}

/// The index of the first tab named `current`.
pub open spec fn is_current_index(tabs: Seq<TabHeader>, current: Seq<char>, i: int) -> bool {
    &&& 0 <= i < tabs.len()
    &&& tabs[i].value@ == current
    &&& forall|k: int| 0 <= k < i ==> #[trigger] tabs[k].value@ != current
}

/// The index of the first tab named `current`, if any.
pub fn current_tab_index(tabs: &Vec<TabHeader>, current: &str) -> (r: Option<usize>)
    ensures
        match r {
            Some(i) => is_current_index(tabs@, current@, i as int),
            None => forall|k: int| 0 <= k < tabs@.len() ==> #[trigger] tabs@[k].value@ != current@,
        },
{
    let key = current.to_owned();
    let mut i: usize = 0;
    while i < tabs.len()
        invariant
            key@ == current@,
            i <= tabs@.len(),
            forall|k: int| 0 <= k < i ==> #[trigger] tabs@[k].value@ != current@,
        decreases tabs@.len() - i,
    {
        if tabs[i].value == key {
            return Some(i);
        }
        i = i + 1;
    }
    None
}

/// The columns the decorator of `t` and the two spaces before it take.
pub open spec fn decorator_area(t: TabHeader) -> int {
    match t.decorator_width {
        Some(w) => if w + 2 > u16::MAX {
            w + 2 - 0x10000
        } else {
            w + 2
        },
        None => 0,
    }
}

/// The column, counted from the left edge of the header row, where tab `i` starts.
pub open spec fn tab_start(tabs: Seq<TabHeader>, l: HeaderLayout, i: int) -> int
    decreases i,
{
    if i <= 0 {
        1
    } else {
        tab_start(tabs, l, i - 1) + tabs[i - 1].title_width + l.padding_left + decorator_area(tabs[i - 1]) + l.divider_width
            + l.padding_right
    }
}

/// The last column of the title of tab `i`.
pub open spec fn title_end(tabs: Seq<TabHeader>, l: HeaderLayout, i: int) -> int {
    tab_start(tabs, l, i) + tabs[i].title_width + l.padding_left
}

/// The column just after the decorator of tab `i`.
pub open spec fn decorator_end(tabs: Seq<TabHeader>, l: HeaderLayout, i: int) -> int {
    title_end(tabs, l, i) + decorator_area(tabs[i])
}

/// Whether a click `offset` columns right of the row's left edge falls on tab `i`.
pub open spec fn tab_hit(tabs: Seq<TabHeader>, l: HeaderLayout, offset: int, i: int) -> bool {
    offset <= title_end(tabs, l, i) || offset < decorator_end(tabs, l, i)
}

/// Tab `i` is the first tab that a click `offset` columns right of the left edge falls on.
pub open spec fn first_hit(tabs: Seq<TabHeader>, l: HeaderLayout, offset: int, i: int) -> bool {
    &&& 0 <= i < tabs.len()
    &&& tab_hit(tabs, l, offset, i)
    &&& forall|k: int| 0 <= k < i ==> !#[trigger] tab_hit(tabs, l, offset, k)
}

/// Every column count the scan of the header row computes before it stops fits in 16 bits.
pub open spec fn scan_fits(tabs: Seq<TabHeader>, l: HeaderLayout, offset: int) -> bool {
    forall|i: int|
        #![trigger tab_start(tabs, l, i)]
        0 <= i < tabs.len() && (forall|k: int| 0 <= k < i ==> !#[trigger] tab_hit(tabs, l, offset, k)) ==> {
            &&& title_end(tabs, l, i) <= u16::MAX
            &&& offset > title_end(tabs, l, i) ==> decorator_end(tabs, l, i) <= u16::MAX
            &&& !tab_hit(tabs, l, offset, i) ==> tab_start(tabs, l, i + 1) <= u16::MAX
        }
}

/// What a click on column `column` of a header row that starts at column `start_col`
/// asks for. The first tab the click falls on decides: a click on its title selects it,
/// unless it is the tab named `current`, when nothing happens; a click on its decorator
/// goes to the decorator's handler when there is one, else it selects the tab.
pub fn tab_click(
    tabs: &Vec<TabHeader>,
    layout: HeaderLayout,
    current: &str,
    has_decorator_handler: bool,
    start_col: u16,
    column: u16,
) -> (r: Option<TabClick>)
    requires
        start_col <= column,
        scan_fits(tabs@, layout, column - start_col),
    ensures
        ({
            let offset = column - start_col;
            match r {
                Some(TabClick::Title(i)) => first_hit(tabs@, layout, offset, i as int) && if offset <= title_end(
                    tabs@,
                    layout,
                    i as int,
                ) {
                    tabs@[i as int].value@ != current@
                } else {
                    !has_decorator_handler
                },
                Some(TabClick::Decorator(i)) => first_hit(tabs@, layout, offset, i as int) && offset > title_end(
                    tabs@,
                    layout,
                    i as int,
                ) && has_decorator_handler,
                None => (forall|k: int| 0 <= k < tabs@.len() ==> !#[trigger] tab_hit(tabs@, layout, offset, k)) || exists|
                    i: int,
                |
                    #[trigger] first_hit(tabs@, layout, offset, i) && offset <= title_end(tabs@, layout, i)
                        && tabs@[i].value@ == current@,
            }
        }),
{
    let key = current.to_owned();
    let col_offset = column - start_col;
    let mut total_len: u16 = 1;
    let mut i: usize = 0;
    while i < tabs.len()
        invariant
            start_col <= column,
            key@ == current@,
            col_offset == column - start_col,
            scan_fits(tabs@, layout, col_offset as int),
            i <= tabs@.len(),
            total_len == tab_start(tabs@, layout, i as int),
            forall|k: int| 0 <= k < i ==> !#[trigger] tab_hit(tabs@, layout, col_offset as int, k),
        decreases tabs@.len() - i,
    {
        let tab = &tabs[i];
        assert(tab_start(tabs@, layout, i as int) == total_len);
        let decorator_area: u16 = match tab.decorator_width {
            Some(w) => w.wrapping_add(2),
            None => 0,
        };
        let header_area = tab.title_width + layout.padding_left;
        if col_offset <= total_len + header_area {
            if !(tab.value == key) {
                return Some(TabClick::Title(i));
            }
            assert(first_hit(tabs@, layout, col_offset as int, i as int));
            return None;
        }
        if col_offset < total_len + header_area + decorator_area {
            if has_decorator_handler {
                return Some(TabClick::Decorator(i));
            } else {
                return Some(TabClick::Title(i));
            }
        }
        total_len = total_len + (header_area + decorator_area + layout.divider_width + layout.padding_right);
        i = i + 1;
    }
    None
}

/// The columns all headers take together.
pub open spec fn header_widths(widths: Seq<usize>, padding: usize) -> int
    decreases widths.len(),
{
    if widths.len() == 0 {
        0
    } else {
        header_widths(widths.drop_last(), padding) + ((widths.last() + padding) as u16)
    }
}

/// How many columns the header row needs to fit every header: each header's width
/// `widths[i]` plus `padding` (cut to 16 bits), one divider between each two tabs, and the
/// two outside borders; none when there is no tab. Every sum must fit in 16 bits.
pub fn headers_len(widths: &Vec<usize>, padding: usize, divider_width: u16) -> (r: u16)
    requires
        forall|i: int| 0 <= i < widths@.len() ==> #[trigger] widths@[i] + padding <= usize::MAX,
        widths@.len() > 0 ==> {
            &&& (widths@.len() as u16) >= 1
            &&& header_widths(widths@, padding) <= u16::MAX
            &&& ((widths@.len() as u16) - 1) * divider_width <= u16::MAX
            &&& header_widths(widths@, padding) + ((widths@.len() as u16) - 1) * divider_width + 2 <= u16::MAX
        },
    ensures
        r == if widths@.len() == 0 {
            0
        } else {
            header_widths(widths@, padding) + ((widths@.len() as u16) - 1) * divider_width + 2
        },
{
    let n = widths.len();
    if n == 0 {
        return 0;
    }
    let mut sum: u16 = 0;
    let mut i: usize = 0;
    while i < n
        invariant
            n == widths@.len(),
            n > 0,
            i <= n,
            forall|j: int| 0 <= j < widths@.len() ==> #[trigger] widths@[j] + padding <= usize::MAX,
            header_widths(widths@, padding) <= u16::MAX,
            sum == header_widths(widths@.take(i as int), padding),
        decreases n - i,
    {
        proof {
            assert(widths@.take(i as int + 1).drop_last() =~= widths@.take(i as int));
            lemma_header_widths_prefix(widths@, padding, i as int + 1);
        }
        let w = (widths[i] + padding) as u16;
        sum = sum + w;
        i = i + 1;
    }
    proof {
        assert(widths@.take(n as int) =~= widths@);
    }
    let count = n as u16;
    sum + (count - 1) * divider_width + 2
}

/// Some tab is named `current`.
pub open spec fn has_current(tabs: Seq<TabHeader>, current: Seq<char>) -> bool {
    exists|k: int| 0 <= k < tabs.len() && #[trigger] tabs[k].value@ == current
}

/// The columns the header line of `t` takes: its title, and for a tab with a decorator,
/// two spaces and the decorator.
pub open spec fn line_width(t: TabHeader) -> int {
    match t.decorator_width {
        Some(w) => t.title_width + 2 + w,
        None => t.title_width as int,
    }
}

/// The widths of the header lines, tab by tab.
pub open spec fn line_widths(tabs: Seq<TabHeader>) -> Seq<usize> {
    tabs.map_values(|t: TabHeader| line_width(t) as usize)
}

/// The padding on both sides of a title.
pub open spec fn padding_width(l: HeaderLayout) -> usize {
    (l.padding_left + l.padding_right) as usize
}

/// Every sum that measuring the header row of `tabs` makes fits in 16 bits.
pub open spec fn row_fits(tabs: Seq<TabHeader>, l: HeaderLayout) -> bool {
    let widths = line_widths(tabs);
    let padding = padding_width(l);
    widths.len() > 0 ==> {
        &&& (widths.len() as u16) >= 1
        &&& header_widths(widths, padding) <= u16::MAX
        &&& ((widths.len() as u16) - 1) * l.divider_width <= u16::MAX
        &&& header_widths(widths, padding) + ((widths.len() as u16) - 1) * l.divider_width + 2 <= u16::MAX
    }
}

/// The length of the header row: none when no tab is named `current` (the row then shows
/// no header), else the length `headers_len` gives for the header lines and the padding.
pub open spec fn header_row_width(tabs: Seq<TabHeader>, current: Seq<char>, l: HeaderLayout) -> int {
    if !has_current(tabs, current) || tabs.len() == 0 {
        0
    } else {
        header_widths(line_widths(tabs), padding_width(l)) + ((tabs.len() as u16) - 1) * l.divider_width + 2
    }
}

/// The length of the header row of a tab view whose current tab is `current`: the headers
/// are only drawn when some tab is the current one, and then measure as `headers_len` says.
pub fn header_row_len(tabs: &Vec<TabHeader>, current: &str, layout: HeaderLayout) -> (r: u16)
    requires
        has_current(tabs@, current@) ==> row_fits(tabs@, layout),
    ensures
        r == header_row_width(tabs@, current@, layout),
        !has_current(tabs@, current@) ==> r == 0,
{
    match current_tab_index(tabs, current) {
        None => 0,
        Some(_) => {
            let mut widths: Vec<usize> = Vec::new();
            let mut i: usize = 0;
            while i < tabs.len()
                invariant
                    i <= tabs@.len(),
                    widths@ =~= line_widths(tabs@).take(i as int),
                decreases tabs@.len() - i,
            {
                let t = &tabs[i];
                let w: usize = match t.decorator_width {
                    Some(d) => t.title_width as usize + 2 + d as usize,
                    None => t.title_width as usize,
                };
                widths.push(w);
                i = i + 1;
                proof {
                    assert(line_widths(tabs@).take(i as int) =~= line_widths(tabs@).take(i - 1).push(w));
                }
            }
            proof {
                assert(widths@ =~= line_widths(tabs@));
                assert forall|j: int| 0 <= j < widths@.len() implies #[trigger] widths@[j] + padding_width(layout)
                    <= usize::MAX by {
                    assert(line_width(tabs@[j]) <= 0x20000);
                }
            }
            let padding = layout.padding_left as usize + layout.padding_right as usize;
            headers_len(&widths, padding, layout.divider_width)
        },
    }
}

/// The width a tab view takes: with `fit` set, exactly the length of its header row
/// (`Some`); without it, the width it was given (`None`).
pub fn fitted_width(tabs: &Vec<TabHeader>, current: &str, layout: HeaderLayout, fit: bool) -> (r: Option<u16>)
    requires
        fit && has_current(tabs@, current@) ==> row_fits(tabs@, layout),
    ensures
        r == if fit {
            Some(header_row_width(tabs@, current@, layout) as u16)
        } else {
            None::<u16>
        },
{
    if fit {
        Some(header_row_len(tabs, current, layout))
    } else {
        None
    }
}

/// A prefix of the headers takes no more columns than all of them.
proof fn lemma_header_widths_prefix(widths: Seq<usize>, padding: usize, i: int)
    requires
        0 <= i <= widths.len(),
    ensures
        header_widths(widths.take(i), padding) <= header_widths(widths, padding),
    decreases widths.len() - i,
{
    if i < widths.len() {
        lemma_header_widths_prefix(widths, padding, i + 1);
        assert(widths.take(i + 1).drop_last() =~= widths.take(i));
    } else {
        assert(widths.take(i) =~= widths);
    }
}

/// Later tabs start no further left.
proof fn lemma_tab_start_mono(tabs: Seq<TabHeader>, l: HeaderLayout, a: int, b: int)
    requires
        0 <= a <= b <= tabs.len(),
    ensures
        tab_start(tabs, l, a) <= tab_start(tabs, l, b),
    decreases b - a,
{
    if a < b {
        lemma_tab_start_mono(tabs, l, a, b - 1);
    }
}

/// When a divider or padding separates the tabs, a click on any column from the start
/// of a tab to the end of its title falls on that tab, and on its title.
pub proof fn lemma_click_on_title(tabs: Seq<TabHeader>, l: HeaderLayout, offset: int, i: int)
    requires
        0 <= i < tabs.len(),
        l.divider_width + l.padding_right > 0,
        tab_start(tabs, l, i) <= offset <= title_end(tabs, l, i),
    ensures
        first_hit(tabs, l, offset, i),
        offset <= title_end(tabs, l, i),
{
    assert forall|k: int| 0 <= k < i implies !#[trigger] tab_hit(tabs, l, offset, k) by {
        lemma_tab_start_mono(tabs, l, k + 1, i);
        assert(decorator_area(tabs[k]) >= 0);
    }
}

} // verus!
