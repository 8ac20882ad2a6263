use amiga_disasm::{analyze, callgraph, CallGraphEdge, CallGraphNode};

#[test]
fn counts_degrees_and_collapses_call_sites() {
    // BSR +6 (->8) ; BSR +2 (->8) ; RTS: function 0 calls function 8 twice.
    let code = [0x61, 0x00, 0x00, 0x06, 0x61, 0x00, 0x00, 0x02, 0x4e, 0x75];
    let graph = callgraph(&analyze(&code, 0));

    assert_eq!(
        graph.edges,
        [CallGraphEdge {
            caller: 0,
            callee: 8,
            calls: 2,
        }]
    );
    assert!(graph.nodes.contains(&CallGraphNode {
        function: 0,
        in_degree: 0,
        out_degree: 1,
    }));
    assert!(graph.nodes.contains(&CallGraphNode {
        function: 8,
        in_degree: 1,
        out_degree: 0,
    }));
}

#[test]
fn isolated_entry_is_a_zero_degree_node() {
    // A lone RTS: one function, no edges.
    let graph = callgraph(&analyze(&[0x4e, 0x75], 0));
    assert_eq!(
        graph.nodes,
        [CallGraphNode {
            function: 0,
            in_degree: 0,
            out_degree: 0,
        }]
    );
    assert!(graph.edges.is_empty());
}
