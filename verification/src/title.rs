//! Window titles that fit the room the title bar has for them.

use vstd::prelude::*;

verus! {

/// Stands at the end of a title that was cut.
pub const ELLIPSIS: char = '…';

/// How many columns a character takes on the screen, none for a control character: what
/// `unicode_width` answers for the character.
pub uninterp spec fn char_columns(character: char) -> Option<usize>;

/// Calls `UnicodeWidthChar::width` of the crate `unicode_width`.
///
/// The result depends on the character alone, and is named `char_columns`. The tables of the
/// crate give the ellipsis one column.
#[verifier::external_body]
fn char_width(character: char) -> (columns: Option<usize>)
    ensures
        columns == char_columns(character),
        character == ELLIPSIS ==> columns == Some(1usize),
{
    unicode_width::UnicodeWidthChar::width(character)
}

/// `String::push` of the standard library: the character is appended.
pub assume_specification[ String::push ](string: &mut String, character: char)
    ensures
        final(string)@ == old(string)@.push(character),
;

/// How many columns a character takes, a control character none.
pub open spec fn shown_columns(character: char) -> usize {
    match char_columns(character) {
        Some(columns) => columns,
        None => 0,
    }
}

/// How many columns each character of a text takes.
pub open spec fn text_columns(text: Seq<char>) -> Seq<usize> {
    Seq::new(text.len(), |i: int| shown_columns(text[i]))
}

/// The sum of column counts.
pub open spec fn total(columns: Seq<usize>) -> nat
    decreases columns.len(),
{
    if columns.len() == 0 {
        0
    } else {
        total(columns.drop_last()) + columns.last() as nat
    }
}

/// How many characters fit into fewer than `max_columns` columns.
pub open spec fn longest_fit(columns: Seq<usize>, max_columns: nat) -> nat
    decreases columns.len(),
{
    if columns.len() == 0 || total(columns) < max_columns {
        columns.len()
    } else {
        longest_fit(columns.drop_last(), max_columns)
    }
}

/// A title whose characters take the given columns: the whole title where it fits, else as much
/// of it as leaves a column for the ellipsis, and nothing where there is no column at all.
pub open spec fn truncated(title: Seq<char>, columns: Seq<usize>, max_columns: nat) -> Seq<char> {
    if total(columns) <= max_columns {
        title
    } else if max_columns == 0 {
        Seq::empty()
    } else {
        title.take(longest_fit(columns, max_columns) as int).push(ELLIPSIS)
    }
}

/// A longer text takes no fewer columns.
proof fn lemma_total_ordered(columns: Seq<usize>, shorter: int, longer: int)
    requires
        0 <= shorter <= longer <= columns.len(),
    ensures
        total(columns.take(shorter)) <= total(columns.take(longer)),
    decreases longer - shorter,
{
    if shorter < longer {
        assert(columns.take(longer).drop_last() =~= columns.take(longer - 1));
        lemma_total_ordered(columns, shorter, longer - 1);
    }
}

proof fn lemma_total_next(columns: Seq<usize>, index: int)
    requires
        0 <= index < columns.len(),
    ensures
        total(columns.take(index + 1)) == total(columns.take(index)) + columns[index],
{
    assert(columns.take(index + 1).drop_last() =~= columns.take(index));
}

/// The longest fit leaves a column free.
proof fn lemma_longest_fit_fits(columns: Seq<usize>, max_columns: nat)
    requires
        max_columns > 0,
    ensures
        longest_fit(columns, max_columns) <= columns.len(),
        total(columns.take(longest_fit(columns, max_columns) as int)) < max_columns,
    decreases columns.len(),
{
    let fit = longest_fit(columns, max_columns);
    if columns.len() == 0 || total(columns) < max_columns {
        assert(columns.take(fit as int) =~= columns);
    } else {
        let shorter = columns.drop_last();
        lemma_longest_fit_fits(shorter, max_columns);
        assert(columns.take(fit as int) =~= shorter.take(fit as int));
    }
}

/// As many characters as fit, and no more, leave a column free.
pub proof fn lemma_longest_fit_parts(columns: Seq<usize>, max_columns: nat, count: int)
    requires
        max_columns > 0,
        0 <= count <= columns.len(),
    ensures
        count <= longest_fit(columns, max_columns) <==> total(columns.take(count)) < max_columns,
    decreases columns.len(),
{
    let fit = longest_fit(columns, max_columns);
    lemma_longest_fit_fits(columns, max_columns);
    if count <= fit {
        lemma_total_ordered(columns, count, fit as int);
    } else if count == columns.len() {
        assert(columns.take(count) =~= columns);
    } else {
        let shorter = columns.drop_last();
        lemma_longest_fit_parts(shorter, max_columns, count);
        assert(shorter.take(count) =~= columns.take(count));
    }
}

/// A truncated title takes no more columns than it was given.
proof fn lemma_truncated_fits(title: Seq<char>, max_columns: nat)
    requires
        char_columns(ELLIPSIS) == Some(1usize),
    ensures
        total(text_columns(truncated(title, text_columns(title), max_columns))) <= max_columns,
{
    let columns = text_columns(title);
    let result = truncated(title, columns, max_columns);
    if total(columns) > max_columns {
        if max_columns == 0 {
            assert(text_columns(result) =~= Seq::empty());
        } else {
            let fit = longest_fit(columns, max_columns) as int;
            lemma_longest_fit_fits(columns, max_columns);
            assert(text_columns(result).drop_last() =~= columns.take(fit));
            assert(text_columns(result).last() == 1);
        }
    }
}

/// Truncating twice, the second time to no more columns, is truncating once to those: no second
/// ellipsis comes in. The ellipsis has to take one column, as `truncate_title` states.
pub proof fn lemma_truncated_twice(title: Seq<char>, first: nat, second: nat)
    requires
        second <= first,
    ensures
        char_columns(ELLIPSIS) == Some(1usize) ==> ({
            let once = truncated(title, text_columns(title), first);
            truncated(once, text_columns(once), second) == truncated(
                title,
                text_columns(title),
                second,
            )
        }),
{
    let columns = text_columns(title);
    let once = truncated(title, columns, first);
    if char_columns(ELLIPSIS) == Some(1usize) && total(columns) > first {
        if second == 0 {
            if total(text_columns(once)) == 0 {
                if first > 0 {
                    assert(text_columns(once).last() == 1);
                }
                assert(once =~= Seq::empty());
            }
        } else {
            let fit = longest_fit(columns, first) as int;
            let shown = text_columns(once);
            lemma_longest_fit_fits(columns, first);
            lemma_longest_fit_fits(columns, second);
            assert(shown =~= columns.take(fit).push(1));
            assert(shown.drop_last() =~= columns.take(fit));
            let less = longest_fit(columns, second) as int;
            lemma_longest_fit_parts(columns, first, less);
            lemma_longest_fit_parts(columns, second, fit);
            if total(shown) > second {
                let again = longest_fit(shown, second) as int;
                lemma_longest_fit_fits(shown, second);
                lemma_longest_fit_parts(shown, second, fit);
                lemma_longest_fit_parts(shown, second, fit + 1);
                assert(shown.take(fit) =~= columns.take(fit));
                assert(shown.take(fit + 1) =~= shown);
                assert(again < fit);
                lemma_longest_fit_parts(columns, second, again);
                assert(shown.take(again) =~= columns.take(again));
                lemma_longest_fit_parts(shown, second, less);
                assert(shown.take(less) =~= columns.take(less));
                assert(once.take(again) =~= title.take(less));
            }
        }
    }
}

/// A title that fits stays as it is. One that does not is cut to nothing where there is no column,
/// and else to a part of its beginning and an ellipsis: the longest part whose columns lie below
/// `max_columns`, so that one more character would take all of them or more.
pub proof fn lemma_truncated_is_longest(title: Seq<char>, columns: Seq<usize>, max_columns: nat)
    requires
        columns.len() == title.len(),
    ensures
        ({
            let result = truncated(title, columns, max_columns);
            let kept = result.len() - 1;
            &&& total(columns) <= max_columns ==> result == title
            &&& total(columns) > max_columns && max_columns == 0 ==> result.len() == 0
            &&& total(columns) > max_columns && max_columns > 0 ==> {
                &&& 0 <= kept < title.len()
                &&& result[kept] == '…'
                &&& result.take(kept) == title.take(kept)
                &&& total(columns.take(kept)) < max_columns
                &&& total(columns.take(kept + 1)) >= max_columns
            }
        }),
{
    if total(columns) > max_columns && max_columns > 0 {
        let result = truncated(title, columns, max_columns);
        let fit = longest_fit(columns, max_columns) as int;
        lemma_longest_fit_fits(columns, max_columns);
        assert(columns.take(columns.len() as int) =~= columns);
        lemma_longest_fit_parts(columns, max_columns, columns.len() as int);
        lemma_longest_fit_parts(columns, max_columns, fit + 1);
        assert(result.take(fit) =~= title.take(fit));
    }
}

/// Columns add up: an empty text takes none, and a character more takes what it takes more. Each
/// character takes what its table says, and none where the table has no width for it.
pub proof fn lemma_columns_add_up(columns: Seq<usize>, more: usize, text: Seq<char>, index: int)
    requires
        0 <= index < text.len(),
    ensures
        total(Seq::empty()) == 0,
        total(columns.push(more)) == total(columns) + more,
        text_columns(text).len() == text.len(),
        char_columns(text[index]) is Some ==> Some(text_columns(text)[index]) == char_columns(
            text[index],
        ),
        char_columns(text[index]) is None ==> text_columns(text)[index] == 0,
{
    assert(columns.push(more).drop_last() =~= columns);
}

/// Truncates a title whose characters take the given columns.
pub fn truncate_to_columns(title: &str, columns: &Vec<usize>, max_columns: usize) -> (result:
    String)
    requires
        columns@.len() == title@.len(),
    ensures
        result@ == truncated(title@, columns@, max_columns as nat),
        total(columns@) <= max_columns ==> result@ == title@,
        total(columns@) > max_columns && max_columns > 0 ==> ({
            let kept = result@.len() - 1;
            &&& 0 <= kept < title@.len()
            &&& result@ == title@.take(kept).push('…')
            &&& total(columns@.take(kept)) < max_columns <= total(columns@.take(kept + 1))
        }),
{
    let count: usize = columns.len();
    let mut fits: bool = true;
    let mut room: usize = max_columns;
    let mut index: usize = 0;
    while index < count
        invariant
            index <= count == columns@.len(),
            room <= max_columns,
            fits ==> total(columns@.take(index as int)) + room == max_columns,
            !fits ==> total(columns@.take(index as int)) > max_columns,
        decreases count - index,
    {
        proof {
            lemma_total_next(columns@, index as int);
        }
        if fits && columns[index] <= room {
            room = room - columns[index];
        } else {
            fits = false;
        }
        index = index + 1;
    }
    assert(columns@.take(columns@.len() as int) =~= columns@);
    if fits {
        return title.to_owned();
    }
    if max_columns == 0 {
        return String::new();
    }
    let mut result = String::new();
    let mut used: usize = 0;
    let mut index: usize = 0;
    for character in characters: title.chars()
        invariant_except_break
            index == characters.index(),
            used == total(columns@.take(index as int)),
            used < max_columns,
        invariant
            columns@.len() == title@.len(),
            characters.seq() == title@,
            index <= count == columns@.len(),
            result@ == title@.take(index as int),
            total(columns@.take(columns@.len() as int)) > max_columns,
        ensures
            index < columns@.len(),
            total(columns@.take(index as int)) < max_columns,
            max_columns <= total(columns@.take(index as int + 1)),
    {
        proof {
            lemma_total_next(columns@, index as int);
        }
        let width: usize = columns[index];
        if width >= max_columns - used {
            break;
        }
        result.push(character);
        used = used + width;
        index = index + 1;
        assert(result@ =~= title@.take(index as int));
    }
    proof {
        lemma_longest_fit_parts(columns@, max_columns as nat, index as int);
        lemma_longest_fit_parts(columns@, max_columns as nat, index as int + 1);
    }
    result.push(ELLIPSIS);
    result
}

/// Truncates a title to a number of columns on the screen. What comes out fits, so that truncating
/// it again changes nothing.
pub fn truncate_title(title: &str, max_columns: usize) -> (result: String)
    ensures
        result@ == truncated(title@, text_columns(title@), max_columns as nat),
        total(text_columns(result@)) <= max_columns,
        truncated(result@, text_columns(result@), max_columns as nat) == result@,
        char_columns(ELLIPSIS) == Some(1usize),
{
    let mut columns: Vec<usize> = Vec::new();
    for character in characters: title.chars()
        invariant
            characters.seq() == title@,
            columns@ == text_columns(title@.take(characters.index() as int)),
    {
        let width: usize = match char_width(character) {
            Some(width) => width,
            None => 0,
        };
        columns.push(width);
        assert(columns@ =~= text_columns(title@.take(characters.index() as int + 1)));
    }
    assert(title@.take(title@.len() as int) =~= title@);
    // That the result fits rests on the width of the ellipsis.
    let _ = char_width(ELLIPSIS);
    proof {
        lemma_truncated_fits(title@, max_columns as nat);
    }
    truncate_to_columns(title, &columns, max_columns)
}

} // verus!
