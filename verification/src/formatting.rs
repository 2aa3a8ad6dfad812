use crate::text::push_char;
use vstd::prelude::*;
use vstd::std_specs::iter::IteratorSpec;

verus! {

/// The character of a decimal digit.
pub open spec fn digit_char(d: nat) -> char {
    ((48 + d) as u8) as char
}

/// The decimal digits of a number, most significant first.
pub open spec fn decimal(n: nat) -> Seq<char>
    decreases n,
{
    if n < 10 {
        seq![digit_char(n)]
    } else {
        decimal(n / 10).push(digit_char(n % 10))
    }
}

/// The decimal digits of a number below a thousand, padded to three.
pub open spec fn three_digits(n: nat) -> Seq<char> {
    seq![digit_char(n / 100), digit_char((n / 10) % 10), digit_char(n % 10)]
}

/// A number in decimal with a comma between each group of three digits.
pub open spec fn grouped(n: nat) -> Seq<char>
    decreases n,
{
    if n < 1000 {
        decimal(n)
    } else {
        grouped(n / 1000) + seq![','] + three_digits(n % 1000)
    }
}

/// The character of a digit below ten.
fn digit(d: usize) -> (c: char)
    requires
        d < 10,
    ensures
        c == digit_char(d as nat),
{
    (d as u8 + 48u8) as char
}

/// Appends a number in decimal.
pub fn push_decimal(out: &mut String, n: usize)
    ensures
        final(out)@ == old(out)@ + decimal(n as nat),
    decreases n,
{
    if n >= 10 {
        push_decimal(out, n / 10);
    }
    push_char(out, digit(n % 10));
    proof {
        if n >= 10 {
            assert(decimal(n as nat) == decimal((n / 10) as nat).push(digit_char((n % 10) as nat)));
        }
    }
}

/// A number in decimal.
pub fn decimal_text(n: usize) -> (s: String)
    ensures
        s@ == decimal(n as nat),
{
    let mut s = String::new();
    push_decimal(&mut s, n);
    assert(s@ =~= decimal(n as nat));
    s
}

/// Appends a number in decimal with commas between groups of three digits.
fn push_grouped(out: &mut String, n: usize)
    ensures
        final(out)@ == old(out)@ + grouped(n as nat),
    decreases n,
{
    if n < 1000 {
        push_decimal(out, n);
    } else {
        push_grouped(out, n / 1000);
        push_char(out, ',');
        let k = n % 1000;
        push_char(out, digit(k / 100));
        push_char(out, digit((k / 10) % 10));
        push_char(out, digit(k % 10));
        proof {
            assert(grouped(n as nat) == grouped((n / 1000) as nat) + seq![','] + three_digits(
                (n % 1000) as nat,
            ));
            assert(final(out)@ =~= old(out)@ + grouped(n as nat));
        }
    }
}

/// A count for display, with a comma between each group of three digits.
pub fn format_count(n: usize) -> (s: String)
    ensures
        s@ == grouped(n as nat),
{
    let mut s = String::new();
    push_grouped(&mut s, n);
    assert(s@ =~= grouped(n as nat));
    s
}

/// The letter for a value below 26.
pub open spec fn letter(n: nat) -> char {
    ((65 + n) as u8) as char
}

/// The spreadsheet name of a column: A to Z, then AA, AB and so on.
pub open spec fn column_name(n: nat) -> Seq<char>
    decreases n,
{
    if n < 26 {
        seq![letter(n)]
    } else {
        column_name((n / 26 - 1) as nat).push(letter(n % 26))
    }
}

fn push_column_name(out: &mut String, n: usize)
    ensures
        final(out)@ == old(out)@ + column_name(n as nat),
    decreases n,
{
    if n >= 26 {
        push_column_name(out, n / 26 - 1);
    }
    push_char(out, ((n % 26) as u8 + 65u8) as char);
    proof {
        if n >= 26 {
            assert(column_name(n as nat) == column_name((n / 26 - 1) as nat).push(letter(
                (n % 26) as nat,
            )));
        }
    }
}

/// The spreadsheet name of a column: A to Z, then AA, AB and so on.
pub fn spreadsheet_column_name(column: usize) -> (s: String)
    ensures
        s@ == column_name(column as nat),
{
    let mut s = String::new();
    push_column_name(&mut s, column);
    assert(s@ =~= column_name(column as nat));
    s
}

/// A text fitted into `width` characters: cut to the width (a cut text ends
/// in three dots in place of its last kept character, when the width is more
/// than one), then padded with spaces to the width.
pub open spec fn fitted(v: Seq<char>, width: nat) -> Seq<char> {
    let t = if v.len() <= width {
        v
    } else {
        v.take(width as int)
    };
    let cut = if v.len() > width && width > 1 {
        t.take(width - 1) + seq!['.', '.', '.']
    } else {
        t
    };
    cut + Seq::new(
        if cut.len() < width {
            (width - cut.len()) as nat
        } else {
            0
        },
        |i: int| ' ',
    )
}

/// Fits a text into `width` characters for the preview.
pub fn fit(value: &str, width: usize) -> (s: String)
    ensures
        s@ == fitted(value@, width as nat),
{
    broadcast use vstd::string::group_string_axioms;

    let mut it = value.chars();
    let mut taken: Vec<char> = Vec::new();
    let ghost mut done: Seq<char> = Seq::empty();
    let mut exhausted = false;
    loop
        invariant
            value@ == done + it.remaining(),
            it.obeys_prophetic_iter_laws(),
            it.decrease() is Some,
            taken@ == done,
            done.len() <= width,
            exhausted ==> it.remaining().len() == 0,
        ensures
            value@ == done + it.remaining(),
            taken@ == done,
            done.len() <= width,
            done.len() == width || it.remaining().len() == 0,
            exhausted ==> it.remaining().len() == 0,
            !exhausted ==> it.obeys_prophetic_iter_laws(),
        decreases it.decrease()->0,
    {
        if taken.len() >= width {
            break;
        }
        match it.next() {
            Some(ch) => {
                taken.push(ch);
                proof {
                    let next_done = done.push(ch);
                    assert(value@ =~= next_done + it.remaining());
                    done = next_done;
                }
            },
            None => {
                exhausted = true;
                break;
            },
        }
    }
    let more = if exhausted {
        false
    } else {
        match it.next() {
            Some(_) => true,
            None => false,
        }
    };
    assert(more == (value@.len() > width));
    let ellipsis = more && width > 1;
    let keep = if ellipsis {
        taken.len() - 1
    } else {
        taken.len()
    };
    let mut out = String::new();
    let mut i: usize = 0;
    while i < keep
        invariant
            keep <= taken@.len(),
            i <= keep,
            out@ == taken@.take(i as int),
        decreases keep - i,
    {
        push_char(&mut out, taken[i]);
        i += 1;
        assert(out@ =~= taken@.take(i as int));
    }
    let ghost kept = out@;
    if ellipsis {
        push_char(&mut out, '.');
        push_char(&mut out, '.');
        push_char(&mut out, '.');
    } else {
        let mut shown = keep;
        while shown < width
            invariant
                kept.len() == keep,
                keep <= shown <= width,
                out@ == kept + Seq::new((shown - keep) as nat, |k: int| ' '),
            decreases width - shown,
        {
            push_char(&mut out, ' ');
            shown += 1;
            assert(out@ =~= kept + Seq::new((shown - keep) as nat, |k: int| ' '));
        }
    }
    proof {
        let v = value@;
        let t = if v.len() <= width {
            v
        } else {
            v.take(width as int)
        };
        assert(t =~= taken@);
        assert(kept =~= taken@.take(keep as int));
        if ellipsis {
            assert(out@ =~= t.take(width - 1) + seq!['.', '.', '.']);
        } else {
            assert(kept =~= t);
        }
        assert(out@ =~= fitted(value@, width as nat));
    }
    out
}

} // verus!
