use vstd::prelude::*;
use crate::rational::{lemma_norm_int, num_add, rat_add, rat_of, to_num, Num};

verus! {

/// A source of raw random draws for dice. `drawn` is every draw handed out so far.
pub trait DrawSource {
    spec fn drawn(&self) -> Seq<u64>;

    fn draw(&mut self) -> (r: u64)
        ensures
            final(self).drawn() == old(self).drawn().push(r),
    ;
}

/// Relies on `rand::random::<u64>`: any `u64`, drawn from the thread's generator.
#[verifier::external_body]
fn random_draw() -> (r: u64) {
    rand::random::<u64>()
}

/// Draws from the thread's random generator.
pub struct ThreadDraws {
    history: Ghost<Seq<u64>>,
}

impl ThreadDraws {
    pub fn new() -> (r: ThreadDraws)
        ensures
            r.drawn() == Seq::<u64>::empty(),
    {
        ThreadDraws { history: Ghost(Seq::empty()) }
    }
}

impl DrawSource for ThreadDraws {
    closed spec fn drawn(&self) -> Seq<u64> {
        self.history@
    }

    fn draw(&mut self) -> (r: u64) {
        let r = random_draw();
        self.history = Ghost(self.history@.push(r));
        r
    }
}

/// Replays a fixed list of draws, starting over after the last one (all zero when the
/// list is empty); for reproducible dice.
pub struct FixedDraws {
    draws: Vec<u64>,
    next: usize,
    history: Ghost<Seq<u64>>,
}

impl FixedDraws {
    pub fn new(draws: Vec<u64>) -> (r: FixedDraws)
        ensures
            r.drawn() == Seq::<u64>::empty(),
    {
        FixedDraws { draws, next: 0, history: Ghost(Seq::empty()) }
    }
}

impl DrawSource for FixedDraws {
    closed spec fn drawn(&self) -> Seq<u64> {
        self.history@
    }

    fn draw(&mut self) -> (r: u64) {
        let r = if self.draws.len() == 0 {
            0
        } else {
            if self.next >= self.draws.len() {
                self.next = 0;
            }
            let d = self.draws[self.next];
            self.next = self.next + 1;
            d
        };
        self.history = Ghost(self.history@.push(r));
        r
    }
}

/// The face that a raw draw shows on a die of `sides` sides.
pub fn die_face(draw: u64, sides: u64) -> (r: u64)
    requires
        sides >= 1,
    ensures
        r == draw % sides + 1,
        1 <= r <= sides,
{
    draw % sides + 1
}

/// The total that the draws `d` show on dice of `sides` sides: the sum of `d[i] % sides + 1`.
pub open spec fn faces_total(d: Seq<u64>, sides: int) -> int
    decreases d.len(),
{
    if d.len() == 0 {
        0
    } else {
        faces_total(d.drop_last(), sides) + (d.last() as int % sides + 1)
    }
}

/// `n` draws show a total between `n` and `n * sides`.
pub proof fn lemma_faces_bounds(d: Seq<u64>, sides: int)
    requires
        sides >= 1,
    ensures
        d.len() <= faces_total(d, sides) <= d.len() * sides,
    decreases d.len(),
{
    if d.len() > 0 {
        lemma_faces_bounds(d.drop_last(), sides);
        let n = d.len() - 1;
        assert(n * sides + sides == (n + 1) * sides) by (nonlinear_arith);
        assert(d.last() as int % sides < sides);
    }
}

proof fn lemma_faces_push(d: Seq<u64>, x: u64, sides: int)
    ensures
        faces_total(d.push(x), sides) == faces_total(d, sides) + (x as int % sides + 1),
{
    assert(d.push(x).drop_last() =~= d);
}

/// The total that `draws` show on dice of `sides` sides.
pub fn roll_total(draws: &Vec<u64>, sides: i64) -> (r: Num)
    requires
        sides >= 1,
    ensures
        r@ == rat_of(faces_total(draws@, sides as int)),
{
    let mut total = to_num(0);
    let mut i: usize = 0;
    while i < draws.len()
        invariant
            sides >= 1,
            i <= draws@.len(),
            total@ == rat_of(faces_total(draws@.take(i as int), sides as int)),
        decreases draws@.len() - i,
    {
        let face = die_face(draws[i], sides as u64);
        let f = to_num(face as i64);
        let ghost before = faces_total(draws@.take(i as int), sides as int);
        total = num_add(&total, &f);
        proof {
            lemma_faces_push(draws@.take(i as int), draws@[i as int], sides as int);
            assert(draws@.take(i as int).push(draws@[i as int]) =~= draws@.take(i + 1));
            lemma_norm_int(before + face);
        }
        i = i + 1;
    }
    assert(draws@.take(draws@.len() as int) =~= draws@);
    total
}

/// The total of `count` dice of `sides` sides: takes `count` draws from `source` (none
/// when `count <= 0`) and adds the faces they show.
pub fn roll<D: DrawSource>(count: i64, sides: i64, source: &mut D) -> (r: Num)
    requires
        sides >= 1,
    ensures
        final(source).drawn().take(old(source).drawn().len() as int) == old(source).drawn(),
        final(source).drawn().len() == old(source).drawn().len() + (if count > 0 { count as int } else { 0 }),
        r@ == rat_of(faces_total(final(source).drawn().skip(old(source).drawn().len() as int), sides as int)),
{
    let ghost start = source.drawn();
    let mut total = to_num(0);
    let mut i: i64 = 0;
    proof {
        assert(source.drawn().skip(start.len() as int) =~= Seq::<u64>::empty());
        assert(source.drawn().take(start.len() as int) =~= start);
    }
    while i < count
        invariant
            sides >= 1,
            0 <= i,
            count > 0 ==> i <= count,
            count <= 0 ==> i == 0,
            source.drawn().len() == start.len() + i,
            source.drawn().take(start.len() as int) == start,
            total@ == rat_of(faces_total(source.drawn().skip(start.len() as int), sides as int)),
        decreases count - i,
    {
        let ghost before = source.drawn();
        let d = source.draw();
        let face = die_face(d, sides as u64);
        let f = to_num(face as i64);
        total = num_add(&total, &f);
        proof {
            let used = before.skip(start.len() as int);
            lemma_faces_push(used, d, sides as int);
            assert(used.push(d) =~= source.drawn().skip(start.len() as int));
            assert(source.drawn().take(start.len() as int) =~= before.take(start.len() as int));
            lemma_norm_int(faces_total(used, sides as int) + face);
        }
        i = i + 1;
    }
    total
}

} // verus!
