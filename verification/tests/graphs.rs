use high_level_caiman::cfg::{Edge, FlowGraph, FINAL_BLOCK_ID, START_BLOCK_ID};
use high_level_caiman::continuations::{compute_continuations, compute_pretinuations, shortest_path, Succs};
use high_level_caiman::dominators::{compute_dominators, inverse_map, DomInfo};

/// 1 -> {2, 3} -> 4 -> 0 (the final block)
fn diamond() -> FlowGraph {
    FlowGraph {
        edges: vec![
            Some(Edge::End),
            Some(Edge::Select { true_branch: 2, false_branch: 3 }),
            Some(Edge::Next(4)),
            Some(Edge::Next(4)),
            Some(Edge::Next(0)),
        ],
    }
}

#[test]
fn edge_targets_and_next() {
    assert_eq!(Edge::Next(4).targets(), vec![4]);
    assert_eq!(Edge::Select { true_branch: 2, false_branch: 3 }.targets(), vec![2, 3]);
    assert!(Edge::End.targets().is_empty());
    assert_eq!(Edge::Next(7).next(), Some(7));
    assert_eq!(Edge::End.next(), None);
    assert_eq!(Edge::Select { true_branch: 1, false_branch: 2 }.next(), None);
    assert_eq!(FINAL_BLOCK_ID, 0);
    assert_eq!(START_BLOCK_ID, 1);
}

#[test]
fn successor_and_predecessor_graphs() {
    let cfg = diamond();
    let s = cfg.successors();
    assert_eq!(s.adj[1], vec![2, 3]);
    assert_eq!(s.adj[0], Vec::<usize>::new());
    let t = cfg.transpose();
    assert_eq!(t.adj[4], vec![2, 3]);
    assert_eq!(t.adj[0], vec![4]);
    assert_eq!(t.adj[1], Vec::<usize>::new());
    assert!(t.present.iter().all(|p| *p));
}

#[test]
fn dominance_of_a_diamond() {
    let cfg = diamond();
    let info = DomInfo::new(&cfg);
    assert!(info.dom(1, 4));
    assert!(info.dom(1, 1));
    assert!(info.dom(4, 4));
    assert!(!info.dom(2, 4));
    assert!(!info.dom(3, 4));
    assert!(info.dom(4, 0));
    assert!(info.postdom(4, 1));
    assert!(info.postdom(0, 2));
    assert!(!info.postdom(2, 1));
    assert!(info.strict_dom(1, 4));
    assert!(!info.strict_dom(1, 1));
    // the two views of each relation agree
    assert_eq!(inverse_map(&info.dominated_by), info.dominates);
    assert_eq!(inverse_map(&info.postdominated_by), info.postdominates);
}

#[test]
fn dominator_tree_of_a_diamond() {
    let cfg = diamond();
    let tree = compute_dominators(&cfg);
    let mut kids = tree.immediately_dominated(1);
    kids.sort();
    assert_eq!(kids, vec![2, 3, 4]);
    assert_eq!(tree.immediately_dominated(4), vec![0]);
    assert!(tree.immediately_dominated(2).is_empty());
    let all = tree.dominated(1);
    assert!(all.iter().all(|d| *d));
    let under4 = tree.strictly_dominated(4);
    assert_eq!(under4, vec![true, false, false, false, false]);
    let mut frontier = tree.dom_frontier(2, &cfg);
    frontier.sort();
    frontier.dedup();
    assert_eq!(frontier, vec![4]);
    assert!(tree.dom_frontier(1, &cfg).is_empty());
}

#[test]
fn continuations_of_a_diamond() {
    let cfg = diamond();
    let (conts, succs) = compute_continuations(&cfg);
    assert_eq!(conts, vec![None, Some(4), Some(4), Some(4), Some(0)]);
    // every block is its own successor; 1 reaches everything
    for b in 0..5 {
        assert!(succs.succs[b][b]);
        assert!(succs.succs[1][b]);
        for a in 0..5 {
            assert_eq!(succs.succs[a][b], succs.preds[b][a]);
        }
    }
    assert!(!succs.succs[2][3]);
    let pre = compute_pretinuations(&cfg);
    assert_eq!(pre[4], Some(1));
    assert_eq!(pre[1], None);
}

#[test]
fn breadth_first_distances() {
    let cfg = diamond();
    let g = cfg.successors();
    assert_eq!(shortest_path(&g, 1), vec![Some(3), Some(0), Some(1), Some(1), Some(2)]);
    assert_eq!(shortest_path(&g, 4), vec![Some(1), None, None, None, Some(0)]);
}

#[test]
fn succs_from_predecessor_sets() {
    let preds = vec![vec![true, false], vec![true, true]];
    let s = Succs::new(preds.clone());
    assert_eq!(s.preds, preds);
    assert_eq!(s.succs, vec![vec![true, true], vec![false, true]]);
}
