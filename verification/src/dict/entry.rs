use vstd::prelude::*;

verus! {

/// A dictionary entry: a surface with its word cost and its part-of-speech ids.
#[derive(Debug)]
pub struct DictEntry {
    pub surface: String,
    pub cost: i16,
    pub left_id: u16,
    pub right_id: u16,
}

/// What a `DictEntry` holds.
pub struct EntryView {
    pub surface: Seq<char>,
    pub cost: i16,
    pub left_id: u16,
    pub right_id: u16,
}

impl View for DictEntry {
    type V = EntryView;

    open spec fn view(&self) -> EntryView {
        EntryView {
            surface: self.surface@,
            cost: self.cost,
            left_id: self.left_id,
            right_id: self.right_id,
        }
    }
}

impl Clone for DictEntry {
    fn clone(&self) -> (r: Self)
        ensures
            r == *self,
    {
        DictEntry {
            surface: self.surface.clone(),
            cost: self.cost,
            left_id: self.left_id,
            right_id: self.right_id,
        }
    }
}

/// A copy of the entries.
pub fn clone_entries(v: &[DictEntry]) -> (r: Vec<DictEntry>)
    ensures
        r@ == v@,
{
    let mut r: Vec<DictEntry> = Vec::new();
    let mut i: usize = 0;
    while i < v.len()
        invariant
            i <= v@.len(),
            r@ == v@.take(i as int),
        decreases v.len() - i,
    {
        r.push(v[i].clone());
        i = i + 1;
        proof {
            assert(r@ =~= v@.take(i as int));
        }
    }
    proof {
        assert(v@.take(v@.len() as int) =~= v@);
    }
    r
}

} // verus!
