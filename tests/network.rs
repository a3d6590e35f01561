use rust_neat::{Gene, Genome, NeatError, Network, NodeType, Settings, SCALE};
use std::collections::HashMap;

fn gene(hm: u32, from: u32, to: u32, weight: i32) -> Gene {
    Gene { hm, enabled: true, from, to, weight }
}

/// The demo genome: the 5x5 scaffold plus hidden nodes
/// 117..200, each fed by the bias and feeding output 7.
fn advanced_genome() -> Genome {
    let mut g1 = Genome::new(0, 5, 5);
    for i in 117..200 {
        assert!(g1.insert_gene(gene(i, 0, i, 100_000)));
        assert!(g1.insert_gene(gene(i * 2, i, 7, 100_000)));
    }
    g1
}

fn layer_of(net: &Network, id: u32) -> usize {
    net.get_node(id).unwrap().layer.unwrap_or(0)
}

fn sigmoid(x: f64, steepness: f64) -> f64 {
    1.0 / (1.0 + f64::exp(-steepness * x))
}

/// Evaluates a network on `inputs` along its evaluation order.
fn evaluate(net: &Network, inputs: &[f64], settings: &Settings) -> Vec<f64> {
    let steepness = settings.sigmoid_steepness as f64 / SCALE as f64;
    let mut values: HashMap<u32, f64> = HashMap::new();
    values.insert(0, 1.0);
    for (k, v) in inputs.iter().enumerate() {
        values.insert(k as u32 + 1, *v);
    }
    for id in net.evaluation_order() {
        let node = net.get_node(id).unwrap();
        if node.pred.is_empty() {
            values.entry(id).or_insert(0.0);
            continue;
        }
        let mut sum = 0.0;
        for link in &node.pred {
            sum += values[&link.from] * (link.weight as f64 / SCALE as f64);
        }
        values.insert(id, sigmoid(sum, steepness));
    }
    let first = net.n_inputs() + 1;
    (first..first + net.n_outputs()).map(|id| values[&id]).collect()
}

#[test]
fn check_nodes_on_build() {
    let genome = Genome::new(0, 5, 5);
    let network = Network::new(&genome, 5, 5).unwrap();
    // 5 input + 5 output + 1 bias
    assert_eq!(network.len(), 11);
    assert_eq!(network.get_node(0).unwrap().node_type, NodeType::BIAS);
    assert_eq!(network.get_node(1).unwrap().node_type, NodeType::INPUT);
    assert_eq!(network.get_node(2).unwrap().node_type, NodeType::INPUT);
    assert_eq!(network.get_node(3).unwrap().node_type, NodeType::INPUT);
    assert_eq!(network.get_node(4).unwrap().node_type, NodeType::INPUT);
    assert_eq!(network.get_node(5).unwrap().node_type, NodeType::INPUT);
    assert_eq!(network.get_node(6).unwrap().node_type, NodeType::OUTPUT);
    assert_eq!(network.get_node(7).unwrap().node_type, NodeType::OUTPUT);
    assert_eq!(network.get_node(8).unwrap().node_type, NodeType::OUTPUT);
    assert_eq!(network.get_node(9).unwrap().node_type, NodeType::OUTPUT);
    assert_eq!(network.get_node(10).unwrap().node_type, NodeType::OUTPUT);
}

#[test]
fn get_linkable_nodes_basic() {
    let mut g1 = Genome::new(0, 5, 5);

    // Only the bias can start a new link here (each input already feeds every
    // output), and a draw finds it one time in six: the retries are bounded,
    // so the test allows enough of them.
    let nodes = g1.get_linkable_nodes(Some(200));
    assert!(nodes.is_some());
    let nodes = nodes.unwrap();
    assert!(nodes.0 != nodes.1);
    assert!(nodes.0 < nodes.1); // this is okay because genome only has inputs and outputs
}

#[test]
fn get_linkable_nodes_advanced() {
    for _ in 0..10 {
        let mut g1 = advanced_genome();
        let nodes = g1.get_linkable_nodes(None);
        assert!(nodes.is_some());
        let nodes = nodes.unwrap();
        assert!(nodes.0 != nodes.1);
        let layer1 = layer_of(g1.network().unwrap(), nodes.0);
        let layer2 = layer_of(g1.network().unwrap(), nodes.1);
        assert!(layer1 <= layer2);
    }
}

#[test]
fn layers_follow_edges() {
    let genome = advanced_genome();
    let net = Network::new(&genome, 5, 5).unwrap();
    assert_eq!(net.len(), 11 + 83);
    assert_eq!(net.get_node(0).unwrap().layer, Some(0));
    assert_eq!(net.get_node(117).unwrap().layer, Some(1));
    assert_eq!(net.get_node(7).unwrap().layer, Some(2));
    assert_eq!(net.get_node(6).unwrap().layer, Some(1));
    for k in 0..net.len() {
        let id = net.node_id(k);
        let node = net.get_node(id).unwrap();
        for link in &node.pred {
            let from = net.get_node(link.from).unwrap();
            if let Some(l) = from.layer {
                assert!(node.layer.unwrap() > l);
            }
        }
    }
}

#[test]
fn nodes_not_fed_from_inputs_have_no_layer() {
    let mut g = Genome::new(0, 1, 1);
    assert!(g.insert_gene(gene(5, 40, 41, 0)));
    let net = Network::new(&g, 1, 1).unwrap();
    assert_eq!(net.get_node(40).unwrap().layer, None);
    assert_eq!(net.get_node(41).unwrap().layer, None);
    assert_eq!(net.get_node(2).unwrap().layer, Some(1));
    assert_eq!(net.get_node(40).unwrap().node_type, NodeType::HIDDEN);
}

#[test]
fn cycle_is_invalid_topology() {
    let mut g = Genome::new(0, 1, 1);
    assert!(g.insert_gene(gene(5, 1, 30, 0)));
    assert!(g.insert_gene(gene(6, 30, 31, 0)));
    assert!(g.insert_gene(gene(7, 31, 30, 0)));
    assert_eq!(Network::new(&g, 1, 1).err(), Some(NeatError::InvalidTopology));
    assert_eq!(g.build_network(), Err(NeatError::InvalidTopology));
    assert_eq!(g.get_linkable_nodes(None), None);
    // Disabling one edge of the cycle makes the genome valid again.
    g.set_enabled(3, false);
    assert!(g.build_network().is_ok());
}

#[test]
fn self_loop_is_invalid_topology() {
    let mut g = Genome::new(0, 1, 1);
    assert!(g.insert_gene(gene(5, 2, 2, 0)));
    assert_eq!(g.build_network(), Err(NeatError::InvalidTopology));
}

#[test]
fn disabled_genes_are_not_compiled() {
    let mut g = Genome::new(0, 2, 1);
    g.set_enabled(1, false);
    let net = Network::new(&g, 2, 1).unwrap();
    assert_eq!(net.get_node(3).unwrap().pred.len(), 1);
    assert_eq!(net.get_node(2).unwrap().succ.len(), 0);
    assert_eq!(net.get_node(1).unwrap().succ[0].to, 3);
}

#[test]
fn evaluation_order_puts_predecessors_first() {
    let net = Network::new(&advanced_genome(), 5, 5).unwrap();
    let order = net.evaluation_order();
    assert_eq!(order.len(), net.len());
    let pos: HashMap<u32, usize> = order.iter().enumerate().map(|(t, id)| (*id, t)).collect();
    assert_eq!(pos.len(), net.len());
    for id in &order {
        for link in &net.get_node(*id).unwrap().pred {
            assert!(pos[&link.from] < pos[id]);
        }
    }
}

#[test]
fn zero_weights_give_half_on_every_output() {
    let settings = Settings::default();
    let mut g = Genome::new(0, 5, 5);
    assert!(g.build_network().is_ok());
    let out = evaluate(g.network().unwrap(), &[0.3, -1.0, 2.0, 0.0, 5.5], &settings);
    assert_eq!(out, vec![0.5; 5]);
}

#[test]
fn evaluation_is_deterministic() {
    let settings = Settings::default();
    let mut g = advanced_genome();
    g.mutate_weights(&settings);
    assert!(g.build_network().is_ok());
    let net = g.network().unwrap();
    let inputs = [0.1, 0.2, 0.3, 0.4, 0.5];
    let first = evaluate(net, &inputs, &settings);
    let second = evaluate(net, &inputs, &settings);
    assert_eq!(first, second);
}

#[test]
fn input_count_is_checked() {
    let net = Network::new(&Genome::new(0, 3, 2), 3, 2).unwrap();
    assert_eq!(net.check_inputs(3), Ok(()));
    assert_eq!(net.check_inputs(2), Err(NeatError::DimensionMismatch));
}

#[test]
fn drawn_links_are_exact() {
    let mut g = Genome::new(0, 2, 2);
    assert!(g.build_network().is_ok());
    let net = g.network().unwrap();
    // 5 nodes, 3 of them not outputs: draw 0 picks the bias, which may link
    // to either output (layer 1); draw 1 picks input 1, already linked to both.
    assert_eq!(net.pick_link(0, 0), Some((0, 3)));
    assert_eq!(net.pick_link(3, 1), Some((0, 4)));
    assert_eq!(net.pick_link(1, 0), None);
    assert_eq!(net.pick_link(2, 7), None);
    assert_eq!(g.get_nth_node(4), 4);
}

#[test]
fn proposed_links_are_valid() {
    for _ in 0..20 {
        let mut g = advanced_genome();
        let (a, b) = g.get_linkable_nodes(None).unwrap();
        let net = g.network().unwrap();
        let na = net.get_node(a).unwrap();
        assert!(na.node_type != NodeType::OUTPUT);
        assert!(a != b);
        assert!(!na.succ.iter().any(|l| l.to == b));
        assert!(layer_of(net, b) >= layer_of(net, a));
    }
}

#[test]
fn no_candidate_after_zero_tries() {
    let mut g = Genome::new(0, 2, 2);
    assert_eq!(g.get_linkable_nodes(Some(0)), None);
}
