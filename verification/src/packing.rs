//! How the values of a metric are packed into lines.

use vstd::prelude::*;

use crate::outcome::Tally;

verus! {

/// The values of a metric line: each text after a colon.
pub open spec fn values_text(texts: Seq<Seq<u8>>) -> Seq<u8>
    decreases texts.len(),
{
    if texts.len() == 0 {
        Seq::empty()
    } else {
        values_text(texts.drop_last()).push(':' as u8) + texts.last()
    }
}

/// Whether `text` and its colon fit into `room` bytes.
pub open spec fn fits(text: Seq<u8>, room: int) -> bool {
    text.len() + 1 <= room
}

/// The texts cut into groups, in order. A text joins the last group if the group then still fits
/// into `room` bytes, and starts a new group otherwise. One that does not fit by itself is left
/// out.
pub open spec fn groups(texts: Seq<Seq<u8>>, room: int) -> Seq<Seq<Seq<u8>>>
    decreases texts.len(),
{
    if texts.len() == 0 {
        Seq::empty()
    } else {
        let cuts = groups(texts.drop_last(), room);
        let text = texts.last();
        if !fits(text, room) {
            cuts
        } else if cuts.len() > 0 && values_text(cuts.last().push(text)).len() <= room {
            cuts.drop_last().push(cuts.last().push(text))
        } else {
            cuts.push(seq![text])
        }
    }
}

/// How many of the texts do not fit into `room` bytes by themselves.
pub open spec fn misfits(texts: Seq<Seq<u8>>, room: int) -> nat
    decreases texts.len(),
{
    if texts.len() == 0 {
        0
    } else {
        misfits(texts.drop_last(), room) + if fits(texts.last(), room) {
            0nat
        } else {
            1
        }
    }
}

/// A metric with everything rendered: what comes before its values, their texts, and what comes
/// after them.
#[verifier::ext_equal]
pub struct Metric {
    pub header: Seq<u8>,
    pub texts: Seq<Seq<u8>>,
    pub trailer: Seq<u8>,
}

impl Metric {
    /// The line that holds `texts`.
    pub open spec fn line(self, texts: Seq<Seq<u8>>) -> Seq<u8> {
        self.header + values_text(texts) + self.trailer
    }

    /// How many bytes of values a line within `limit` bytes has room for.
    pub open spec fn room(self, limit: nat) -> int {
        limit - self.header.len() - self.trailer.len()
    }

    /// The groups in which the values are written.
    pub open spec fn groups(self, limit: nat) -> Seq<Seq<Seq<u8>>> {
        groups(self.texts, self.room(limit))
    }

    /// The lines that hold `groups`.
    pub open spec fn lines_of(self, groups: Seq<Seq<Seq<u8>>>) -> Seq<Seq<u8>> {
        groups.map_values(|texts: Seq<Seq<u8>>| self.line(texts))
    }

    /// The lines that are written, each within `limit` bytes.
    pub open spec fn lines(self, limit: nat) -> Seq<Seq<u8>> {
        self.lines_of(self.groups(limit))
    }

    /// The outcome of writing the metric.
    pub open spec fn tally(self, limit: nat) -> Tally {
        Tally {
            payloads_written: self.groups(limit).len(),
            points_dropped: misfits(self.texts, self.room(limit)),
        }
    }
}

/// A group holds something and fits into the room.
pub proof fn lemma_groups_fit(texts: Seq<Seq<u8>>, room: int)
    ensures
        forall|i: int|
            0 <= i < groups(texts, room).len() ==> {
                &&& (#[trigger] groups(texts, room)[i]).len() > 0
                &&& values_text(groups(texts, room)[i]).len() <= room
            },
        groups(texts, room).len() + misfits(texts, room) <= texts.len(),
    decreases texts.len(),
{
    if texts.len() > 0 {
        lemma_groups_fit(texts.drop_last(), room);
        let text = texts.last();
        assert(values_text(seq![text]).len() == text.len() + 1) by {
            reveal_with_fuel(values_text, 2);
            assert(seq![text].drop_last() =~= Seq::<Seq<u8>>::empty());
        }
        let cuts = groups(texts.drop_last(), room);
        if cuts.len() > 0 {
            assert(cuts.last().len() > 0);
        }
    }
}

/// What one value is packed into: a line of its own, if that fits.
pub proof fn lemma_groups_one(text: Seq<u8>, room: int)
    ensures
        groups(seq![text], room) == if fits(text, room) {
            seq![seq![text]]
        } else {
            Seq::empty()
        },
        misfits(seq![text], room) == if fits(text, room) {
            0nat
        } else {
            1
        },
        values_text(seq![text]) == seq![':' as u8] + text,
{
    reveal_with_fuel(groups, 2);
    reveal_with_fuel(misfits, 2);
    reveal_with_fuel(values_text, 2);
    assert(seq![text].drop_last() =~= Seq::<Seq<u8>>::empty());
    assert(groups(seq![text], room) =~= if fits(text, room) {
        seq![seq![text]]
    } else {
        Seq::empty()
    });
    assert(values_text(seq![text]) =~= seq![':' as u8] + text);
}

/// If no room is left for a colon and one more byte, no text that holds something is written.
pub proof fn lemma_groups_none(texts: Seq<Seq<u8>>, room: int)
    requires
        room < 2,
        forall|i: int| 0 <= i < texts.len() ==> (#[trigger] texts[i]).len() > 0,
    ensures
        groups(texts, room).len() == 0,
        misfits(texts, room) == texts.len(),
    decreases texts.len(),
{
    if texts.len() > 0 {
        assert(texts.last().len() > 0);
        lemma_groups_none(texts.drop_last(), room);
    }
}

} // verus!
