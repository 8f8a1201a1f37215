use neat::genome::Genome;
use neat::mutation::add_node;
use neat::network::Network;
use neat::tictactoe::{Mark, TicTacToe, CELLS};

fn uniform() -> f64 {
    rand::random::<f64>() * 2. - 1.
}

#[test]
fn network_init_network() {
    let g = Genome::new(1, 1, &uniform);
    let n = Network::from_genome(&g).unwrap();

    assert_eq!(n.nodes.len(), 2);
    assert_eq!(n.connections.len(), 1);
    assert_eq!(n.node_calculation_order, vec![0, 1]);
}

#[test]
fn compile_keeps_only_enabled_connections() {
    let mut g = Genome::new(2, 1, &uniform);
    g.disable_connection(0);
    let n = Network::from_genome(&g).unwrap();

    assert_eq!(n.input_count, 2);
    assert_eq!(n.output_count, 1);
    assert_eq!(n.connections.len(), 1);
    assert_eq!(n.connections[0].from, 1);
    assert_eq!(n.connections[0].weight, g.connections()[1].weight);
    assert!(n.nodes.iter().all(|node| node.value.is_none()));
}

#[test]
fn two_compilations_agree() {
    let mut g = Genome::new(2, 2, &uniform);
    add_node(&mut g, &uniform);
    let a = Network::from_genome(&g).unwrap();
    let b = Network::from_genome(&g).unwrap();

    assert_eq!(a.node_calculation_order, b.node_calculation_order);
    assert_eq!(a.connections.len(), b.connections.len());
    for (x, y) in a.connections.iter().zip(b.connections.iter()) {
        assert_eq!((x.from, x.to, x.weight.to_bits()), (y.from, y.to, y.weight.to_bits()));
    }
}

#[test]
fn can_run() {
    let mut env = TicTacToe::new();
    assert!(env.is_external_turn());

    loop {
        if env.game_over() {
            break;
        }

        while env.step(rand::random::<usize>() % CELLS).is_err() {}
    }

    let external = env.did_external_win();
    let internal = env.did_internal_win();
    assert!(!(external && internal));
    assert_eq!(env.is_draw(), !external && !internal);
    env.reset();
    assert!(!env.done());
}

#[test]
fn tictactoe_detects_lines() {
    let mut env = TicTacToe::new();
    env.field = vec![Mark::Empty; CELLS];
    env.field[2] = Mark::O;
    env.field[4] = Mark::O;
    env.field[6] = Mark::O;

    assert!(env.did_mark_win(Mark::O));
    assert!(!env.did_mark_win(Mark::X));
    assert!(env.game_over());
    assert!(!env.is_draw());
}

#[test]
fn tictactoe_refuses_a_taken_cell() {
    let mut env = TicTacToe::new();
    let taken = env.state().iter().position(|m| *m != Mark::Empty);
    match taken {
        Some(cell) => {
            assert!(!env.is_external_first());
            assert_eq!(env.external_mark(), Mark::O);
            assert!(env.step(cell).is_err());
        }
        None => {
            assert!(env.is_external_first());
            assert_eq!(env.external_mark(), Mark::X);
            assert!(env.step(0).is_ok());
            assert!(env.step(0).is_err());
        }
    }
}

fn sum_of(_: neat::aggregations::Aggregation, xs: Vec<f64>) -> f64 {
    xs.iter().sum()
}

#[test]
fn minimal_genome_compiles_and_evaluates() {
    let g = Genome::new(1, 1, &uniform);
    let mut n = Network::from_genome(&g).unwrap();

    let out = n.forward_pass(
        &vec![0.0],
        &|x: f64, w: f64| x * w,
        &sum_of,
        &|x: f64, b: f64, _: neat::activation::ActivationKind| x + b,
    );
    assert_eq!(out.len(), 1);
    assert_eq!(out[0], g.nodes()[1].bias);
}

#[test]
fn forward_pass_follows_the_order() {
    let mut g = Genome::new(2, 1, &|| 0.5);
    let h = g.add_node(&|| 0.5);
    g.add_connection(0, h, &|| 2.0).unwrap();
    g.add_connection(h, 2, &|| 3.0).unwrap();
    let mut n = Network::from_genome(&g).unwrap();

    let out = n.forward_pass(
        &vec![1.0, 4.0],
        &|x: f64, w: f64| x * w,
        &sum_of,
        &|x: f64, b: f64, _: neat::activation::ActivationKind| x + b,
    );
    // hidden: 1 * 2 + 0.5 = 2.5; output: 1 * 0.5 + 4 * 0.5 + 2.5 * 3 + 0.5 = 10.5
    assert_eq!(out, vec![10.5]);
    assert!(n.nodes.iter().all(|node| node.value.is_some()));
}

#[test]
fn compiled_networks_are_well_formed() {
    let g = Genome::new(2, 2, &uniform);
    let mut n = Network::from_genome(&g).unwrap();
    assert!(n.is_well_formed());

    n.node_calculation_order.swap(0, 3);
    assert!(!n.is_well_formed());
}

#[test]
fn network_forward_pass() {
    let g = Genome::new(2, 1, &uniform);
    let mut n = Network::from_genome(&g).unwrap();

    let inputs: Vec<Vec<f64>> = vec![vec![0., 0.], vec![0., 1.], vec![1., 0.], vec![1., 1.]];

    for i in inputs {
        let o = n.forward_pass(
            &i,
            &|x: f64, w: f64| x * w,
            &sum_of,
            &|x: f64, b: f64, _: neat::activation::ActivationKind| (x + b).tanh(),
        );
        assert_eq!(o.len(), 1);
        assert!(o[0].abs() <= 1.);
    }
}
