use ruscape::{toroidal_transform, AgentSet, OriginLocation, PatchSet, World, SCALE};

#[derive(Clone, Copy, Debug, PartialEq)]
enum Var {
    Str(&'static str),
    Int(i64),
}

#[test]
fn test() {
    // 29 wraps into [-0.5, 10.5) as 7.0.
    let x = toroidal_transform(29 * SCALE, -SCALE / 2, 10 * SCALE + SCALE / 2);
    println!("toroidal_transform(29., -0.5, 10.5) = {:#?}", x);
    assert_eq!(x, 7 * SCALE);
}

#[test]
fn test_get_set() {
    let w: World<i64> = World::init(10000, 10, 10, OriginLocation::Corner, true);
    let patches = w.patches();
    let p = patches.one_of(w.rng());
    let n = &w.patch_at_index(p).neighbors;
    println!(" = {:#?}", n.to_vec());
    assert_eq!(n.count(), 8);
}

#[test]
fn sprout_test() {
    let mut w: World<i64> = World::init(10000, 10, 10, OriginLocation::Corner, true);
    let turtles = w.turtles();
    w.turtles_own("some", || 0);
    let order = turtles.ask_order(w.rng());
    for t in order {
        let x = w.random_xcor();
        let y = w.random_ycor();
        w.setxy(t, x, y);
        let t_ref = w.turtle(t);
        let p = w.patch(t_ref.xcor, t_ref.ycor);
        w.sprout(p, 1);
    }
    let all = w.turtles();
    let top = all.max_one_of(|t| t as i64);
    println!(" = {:#?}", top);
    assert_eq!(top, 19999);
    assert_eq!(w.count_turtles(), 20000);
}

struct PggModel {
    w: World<Var>,
    patches: PatchSet,
}

impl PggModel {
    fn new() -> PggModel {
        let w = World::init(0, 100, 100, OriginLocation::Corner, true);
        let patches = w.patches();
        PggModel { w, patches }
    }

    fn setup(&mut self) {
        self.w.patches_own("type", || Var::Int(0));
        self.w.patches_own("payoff", || Var::Int(0));
        let order = self.patches.ask_order(self.w.rng());
        for p in order {
            let kind = if fastrand::f64() <= 0.5 { "c" } else { "d" };
            self.w.patch_set(p, "type", Var::Str(kind));
            self.w.patch_set(p, "payoff", Var::Int(0));
        }
    }

    fn go(&mut self) {
        let order = self.patches.ask_order(self.w.rng());
        for p in order {
            let w = &self.w;
            let hood: &AgentSet<_> = &w.patch_at_index(p).neighborhood4;
            let counts = hood.report(|neighbor| {
                let inner = &w.patch_at_index(neighbor).neighborhood4;
                inner
                    .to_vec()
                    .into_iter()
                    .filter(|&q| *w.patch_get(q, "type") == Var::Str("c"))
                    .count()
            });
            assert_eq!(counts.len(), 5);
            assert!(counts.iter().all(|(_, c)| *c <= 5));
        }
    }

    fn run(&mut self, steps: usize) {
        self.setup();
        for _ in 0..steps {
            self.go();
        }
    }
}

#[test]
fn run() {
    PggModel::new().run(10);
}
