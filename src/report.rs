use vstd::prelude::*;
use vstd::string::StringExecFns;
use crate::peek_queue::MsQueueWithPeak;

verus! {

/// The decimal digits of `v`, most significant first.
pub open spec fn decimal(v: nat) -> Seq<char>
    decreases v,
{
    let digit = seq!['0', '1', '2', '3', '4', '5', '6', '7', '8', '9'][(v % 10) as int];
    if v < 10 {
        seq![digit]
    } else {
        decimal(v / 10).push(digit)
    }
}

/// The items written in decimal and separated by a comma and a space.
pub open spec fn joined(items: Seq<u64>) -> Seq<char>
    decreases items.len(),
{
    if items.len() == 0 {
        Seq::empty()
    } else if items.len() == 1 {
        decimal(items[0] as nat)
    } else {
        joined(items.drop_last()) + seq![',', ' '] + decimal(items.last() as nat)
    }
}

/// The items in brackets, as in `[0, 1]`.
pub open spec fn bracketed(items: Seq<u64>) -> Seq<char> {
    seq!['['] + joined(items) + seq![']']
}

/// The decimal digit `d` as text.
fn digit_text(d: u64) -> (r: &'static str)
    requires
        d < 10,
    ensures
        r@ == seq![seq!['0', '1', '2', '3', '4', '5', '6', '7', '8', '9'][d as int]],
{
    match d {
        0 => {
            proof {
                reveal_strlit("0");
            }
            "0"
        },
        1 => {
            proof {
                reveal_strlit("1");
            }
            "1"
        },
        2 => {
            proof {
                reveal_strlit("2");
            }
            "2"
        },
        3 => {
            proof {
                reveal_strlit("3");
            }
            "3"
        },
        4 => {
            proof {
                reveal_strlit("4");
            }
            "4"
        },
        5 => {
            proof {
                reveal_strlit("5");
            }
            "5"
        },
        6 => {
            proof {
                reveal_strlit("6");
            }
            "6"
        },
        7 => {
            proof {
                reveal_strlit("7");
            }
            "7"
        },
        8 => {
            proof {
                reveal_strlit("8");
            }
            "8"
        },
        _ => {
            proof {
                reveal_strlit("9");
            }
            "9"
        },
    }
}

/// `v` written in decimal, as `Debug` writes an integer.
fn decimal_text(v: u64) -> (r: String)
    ensures
        r@ == decimal(v as nat),
    decreases v,
{
    if v < 10 {
        let r = String::from_str(digit_text(v));
        assert(r@ =~= decimal(v as nat));
        r
    } else {
        let mut r = decimal_text(v / 10);
        r.append(digit_text(v % 10));
        assert(r@ =~= decimal(v as nat));
        r
    }
}

/// Writes every item of the queue, front first, in brackets; the queue is
/// left empty.
pub fn fmt_queue(queue: &mut MsQueueWithPeak) -> (r: String)
    ensures
        r@ == bracketed(old(queue)@),
        final(queue)@.len() == 0,
{
    let items = queue.drain();
    let mut s = String::new();
    s.append("[");
    proof {
        reveal_strlit("[");
        assert(items@.take(0) =~= Seq::<u64>::empty());
    }
    let mut i: usize = 0;
    while i < items.len()
        invariant
            i <= items@.len(),
            s@ == seq!['['] + joined(items@.take(i as int)),
        decreases items@.len() - i,
    {
        let text = decimal_text(items[i]);
        let ghost t = items@.take(i + 1);
        let ghost prev = s@;
        if i == 0 {
            s.append(text.as_str());
            assert(t =~= seq![items@[0]]);
            assert(joined(t) == decimal(items@[0] as nat));
        } else {
            s.append(", ");
            proof {
                reveal_strlit(", ");
                assert(", "@ =~= seq![',', ' ']);
            }
            s.append(text.as_str());
            assert(t.drop_last() =~= items@.take(i as int));
            assert(t.last() == items@[i as int]);
            assert(joined(t) == joined(t.drop_last()) + seq![',', ' '] + decimal(t.last() as nat));
        }
        assert(s@ =~= seq!['['] + joined(t));
        i = i + 1;
    }
    s.append("]");
    proof {
        reveal_strlit("]");
    }
    assert(items@.take(items@.len() as int) =~= items@);
    assert(s@ =~= bracketed(old(queue)@));
    s
}

} // verus!
