//! The text that shows a skip list lane by lane.
//!
//! Each lane that holds nodes is one line, the top lane first: the text of
//! each key in ascending order, each after `-> `, then `-> None` and a
//! line break. Lanes without nodes are left out.

use vstd::prelude::*;
use vstd::string::StringExecFns;

verus! {

/// The text of one lane whose keys read `keys`.
pub open spec fn lane_text(keys: Seq<Seq<char>>) -> Seq<char>
    decreases keys.len(),
{
    if keys.len() == 0 {
        Seq::empty()
    } else {
        lane_text(keys.drop_last()) + "-> "@ + keys.last()
    }
}

/// The text of the lanes whose keys read `lanes`, in that order; lanes
/// without keys give no line.
pub open spec fn lanes_text(lanes: Seq<Seq<Seq<char>>>) -> Seq<char>
    decreases lanes.len(),
{
    if lanes.len() == 0 {
        Seq::empty()
    } else {
        lanes_text(lanes.drop_last()) + if lanes.last().len() == 0 {
            Seq::empty()
        } else {
            lane_text(lanes.last()) + "-> None\n"@
        }
    }
}

/// The text of the lanes whose keys, written out, are `lanes`, in the
/// order given.
pub fn render_lanes(lanes: &Vec<Vec<String>>) -> (r: String)
    ensures
        r@ == lanes_text(lanes@.map_values(|lane: Vec<String>| lane@.map_values(|k: String| k@))),
        single_line_keys(lanes@.map_values(|lane: Vec<String>| lane@.map_values(|k: String| k@)))
            ==> line_breaks(r@) == filled_lanes(
            lanes@.map_values(|lane: Vec<String>| lane@.map_values(|k: String| k@)),
        ),
{
    let ghost view = lanes@.map_values(|lane: Vec<String>| lane@.map_values(|k: String| k@));
    let mut out = String::new();
    let mut i: usize = 0;
    while i < lanes.len()
        invariant
            i <= lanes@.len(),
            view == lanes@.map_values(|lane: Vec<String>| lane@.map_values(|k: String| k@)),
            out@ == lanes_text(view.take(i as int)),
        decreases lanes@.len() - i,
    {
        let lane = &lanes[i];
        let ghost keys = view[i as int];
        let ghost before = out@;
        if lane.len() > 0 {
            let mut j: usize = 0;
            while j < lane.len()
                invariant
                    j <= lane@.len(),
                    keys == lane@.map_values(|k: String| k@),
                    out@ == before + lane_text(keys.take(j as int)),
                decreases lane@.len() - j,
            {
                out.append("-> ");
                out.append(lane[j].as_str());
                proof {
                    assert(keys.take(j + 1).drop_last() =~= keys.take(j as int));
                }
                j += 1;
            }
            out.append("-> None\n");
            proof {
                assert(keys.take(lane@.len() as int) =~= keys);
            }
        }
        proof {
            assert(view.take(i + 1).drop_last() =~= view.take(i as int));
        }
        i += 1;
    }
    proof {
        assert(view.take(lanes@.len() as int) =~= view);
        if single_line_keys(view) {
            law_one_line_per_filled_lane(view);
        }
    }
    out
}

/// The text is empty exactly when every lane is.
pub proof fn law_text_empty(lanes: Seq<Seq<Seq<char>>>)
    ensures
        lanes_text(lanes).len() == 0 <==> forall|i: int| 0 <= i < lanes.len() ==> #[trigger] lanes[i].len()
            == 0,
    decreases lanes.len(),
{
    reveal_strlit("-> None\n");
    if lanes.len() > 0 {
        let rest = lanes.drop_last();
        law_text_empty(rest);
        assert forall|i: int| 0 <= i < rest.len() implies #[trigger] rest[i] == lanes[i] by {}
        if lanes.last().len() > 0 {
            assert(lanes[lanes.len() - 1].len() > 0);
        } else {
            assert forall|i: int| 0 <= i < lanes.len() && rest[i].len() == 0 implies #[trigger] lanes[i].len() == 0 by {}
            if lanes_text(lanes).len() == 0 {
                assert forall|i: int| 0 <= i < lanes.len() implies #[trigger] lanes[i].len() == 0 by {
                    if i < rest.len() {
                        assert(rest[i] == lanes[i]);
                    }
                }
            }
        }
    }
}

/// The number of line breaks in `t`.
pub open spec fn line_breaks(t: Seq<char>) -> nat
    decreases t.len(),
{
    if t.len() == 0 {
        0
    } else {
        line_breaks(t.drop_last()) + if t.last() == '\n' {
            1nat
        } else {
            0nat
        }
    }
}

/// The number of lanes that hold at least one key.
pub open spec fn filled_lanes(lanes: Seq<Seq<Seq<char>>>) -> nat
    decreases lanes.len(),
{
    if lanes.len() == 0 {
        0
    } else {
        filled_lanes(lanes.drop_last()) + if lanes.last().len() > 0 {
            1nat
        } else {
            0nat
        }
    }
}

/// No key text of `lanes` holds a line break.
pub open spec fn single_line_keys(lanes: Seq<Seq<Seq<char>>>) -> bool {
    forall|i: int, j: int, c: int|
        0 <= i < lanes.len() && 0 <= j < lanes[i].len() && 0 <= c < lanes[i][j].len()
            ==> #[trigger] lanes[i][j][c] != '\n'
}

proof fn lemma_line_breaks_add(a: Seq<char>, b: Seq<char>)
    ensures
        line_breaks(a + b) == line_breaks(a) + line_breaks(b),
    decreases b.len(),
{
    if b.len() == 0 {
        assert(a + b =~= a);
    } else {
        lemma_line_breaks_add(a, b.drop_last());
        assert((a + b).drop_last() =~= a + b.drop_last());
        assert((a + b).last() == b.last());
    }
}

proof fn lemma_line_breaks_none(t: Seq<char>)
    requires
        forall|c: int| 0 <= c < t.len() ==> #[trigger] t[c] != '\n',
    ensures
        line_breaks(t) == 0,
    decreases t.len(),
{
    if t.len() > 0 {
        lemma_line_breaks_none(t.drop_last());
    }
}

proof fn lemma_lane_text_one_line(keys: Seq<Seq<char>>)
    requires
        forall|j: int, c: int|
            0 <= j < keys.len() && 0 <= c < keys[j].len() ==> #[trigger] keys[j][c] != '\n',
    ensures
        line_breaks(lane_text(keys)) == 0,
    decreases keys.len(),
{
    reveal_strlit("-> ");
    if keys.len() > 0 {
        let rest = keys.drop_last();
        lemma_lane_text_one_line(rest);
        lemma_line_breaks_add(lane_text(rest), "-> "@);
        lemma_line_breaks_add(lane_text(rest) + "-> "@, keys.last());
        lemma_line_breaks_none("-> "@);
        assert forall|c: int| 0 <= c < keys.last().len() implies #[trigger] keys.last()[c] != '\n' by {
            assert(keys[keys.len() - 1][c] != '\n');
        }
        lemma_line_breaks_none(keys.last());
    }
}

/// The text has one line for each lane that holds a key, whatever the
/// other lanes hold, as long as no key text breaks a line.
pub proof fn law_one_line_per_filled_lane(lanes: Seq<Seq<Seq<char>>>)
    requires
        single_line_keys(lanes),
    ensures
        line_breaks(lanes_text(lanes)) == filled_lanes(lanes),
    decreases lanes.len(),
{
    reveal_strlit("-> None\n");
    if lanes.len() > 0 {
        let rest = lanes.drop_last();
        assert forall|i: int, j: int, c: int|
            0 <= i < rest.len() && 0 <= j < rest[i].len() && 0 <= c < rest[i][j].len()
            implies #[trigger] rest[i][j][c] != '\n' by {
            assert(lanes[i][j][c] != '\n');
        }
        law_one_line_per_filled_lane(rest);
        let last = lanes.last();
        if last.len() > 0 {
            assert forall|j: int, c: int| 0 <= j < last.len() && 0 <= c < last[j].len()
                implies #[trigger] last[j][c] != '\n' by {
                assert(lanes[lanes.len() - 1][j][c] != '\n');
            }
            lemma_lane_text_one_line(last);
            lemma_line_breaks_add(lane_text(last), "-> None\n"@);
            assert(line_breaks("-> None\n"@) == 1) by {
                let t = "-> None\n"@;
                lemma_line_breaks_none(t.drop_last());
            }
            lemma_line_breaks_add(lanes_text(rest), lane_text(last) + "-> None\n"@);
        } else {
            assert(lanes_text(rest) + Seq::<char>::empty() =~= lanes_text(rest));
        }
    }
}

} // verus!
