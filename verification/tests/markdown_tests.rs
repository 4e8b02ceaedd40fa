use rag_indexing::markdown::MarkdownParser;
use rag_indexing::tree::{Node, NodeTree};

const TEST_MARKDOWN: &str = r#"
# ChatGPT出现以来中美大模型发展报告
## 概述
自2022年11月30日OpenAI发布ChatGPT以来，全球人工智能领域发生了前所未有的变革。ChatGPT的发布标志着大语言模型时代的正式开启，激发了中美两国在AI领域的激烈竞争。这场始于技术突破的竞争，已经演变为涉及国家战略、产业生态、人才储备、基础设施等多个维度的全面博弈。
### 历史背景与意义

ChatGPT的出现并非偶然，而是人工智能发展到一定阶段的必然产物。在其发布之前，人工智能已经历了多次高潮与低谷：1950年代的符号主义、1980年代的专家系统、1990年代的机器学习兴起、2010年代的深度学习革命。每一次技术浪潮都推动着人工智能向更智能、更实用的方向发展，而ChatGPT所代表的大语言模型技术，则是这一历史进程的集大成者。

大语言模型的兴起有三大关键技术背景：首先，Transformer架构的提出为模型扩展提供了理论基础；其次，互联网上海量文本数据为模型训练提供了丰富素材；最后，GPU等并行计算设备的普及为大规模模型训练提供了硬件支撑。这些因素的结合，使得构建具有通用智能能力的大模型成为可能。
### 中美竞争的深层逻辑

中美两国在AI大模型领域的竞争，本质上是两种发展模式、两种技术路线、两种价值理念的较量。美国以硅谷为中心，代表了以企业为主导、市场驱动的创新模式，强调技术开源、生态开放、商业化优先。而中国则以北京、上海、深圳为核心，形成了以政府引导、产业协同、应用导向的发展模式，更加注重技术的产业化落地和社会效益。

这种竞争不仅体现在技术研发上，更深层次地反映了未来数字经济的主导权、人工智能标准制定的话语权、以及科技创新的主导地位谁能掌握。胜者将在未来几十年的全球科技竞争中占据有利位置，败者可能面临技术依赖和产业边缘化的风险。
### 当前发展态势

根据斯坦福大学人工智能研究所（HAI）发布的《2025年人工智能指数报告》，中美顶级AI大模型的性能差距已从2023年的17.5%大幅缩至0.3%，几乎实现技术平价。这一里程碑式的进展标志着全球AI竞争格局的深刻变化：从美国的绝对领先转向中美双强并立。

这一变化具有多重意义：首先，中国在AI技术领域的快速追赶证明了其技术创新能力的显著提升；其次，技术差距的缩小意味着未来竞争将更加激烈，任何微小的技术突破都可能改变竞争格局；最后，这种变化也促使两国在AI治理、伦理标准、国际合作等方面寻求新的平衡。

## 历史发展时间线

### 技术萌芽期：通往大语言模型的之路（2017-2020）

在ChatGPT正式发布之前，人工智能领域已经为大语言模型的到来做了充分的技术准备。2017年，Google研究团队发表的《Attention Is All You Need》论文，提出了革命性的Transformer架构，为后续大语言模型的发展奠定了理论基础。Transformer架构的注意力机制解决了传统循环神经网络在处理长序列时的梯度消失问题，为构建能够处理大规模文本数据的人工智能模型提供了可能。

这一时期的技术探索为后续爆发式发展积蓄了力量，但受限于算力成本、数据规模和技术成熟度，大语言模型仍处于实验室阶段，主要服务于研究目的和特定任务，应用范围相对有限。

### ChatGPT发布前的准备阶段（2020-2022）
| 时间 | 事件 | 影响 | 技术意义 |
|------|------|------|----------|
| 2020年5月 | OpenAI发布GPT-3 | 1750亿参数，展现大模型潜力 | 首次验证了规模扩展的效果 |
| 2021年 | 谷歌发布LaMDA | 对话AI技术突破 | 专门针对对话场景优化 |
| 2022年4月 | OpenAI发布DALL-E 2 | 多模态AI能力展示 | 文本到图像生成技术突破 |
| 2022年7月 | Google发布PaLM | 5400亿参数大模型 | 证明了更大规模模型的潜力 |
| 2022年8月 | Meta发布LLaMA | 开源模型系列启动 | 为开源社区奠定基础 |

**2020年5月：GPT-3的震撼登场**
GPT-3的发布标志着大语言模型从概念走向实用的重要转折点。这个拥有1750亿参数的模型展现出了惊人的能力：能够进行流畅的对话、创作诗歌、编写代码、翻译文本，甚至展现出一定程度的推理能力。GPT-3的成功证明了"规模扩展"（Scale）——通过增加模型参数和训练数据来提升模型性能——这一路线的可行性。

然而，GPT-3也暴露了早期大模型的问题：虽然能力强大，但仍需要精细的提示工程才能发挥最佳效果；模型输出存在不稳定性；特别是在处理专业领域问题时表现不够可靠。尽管如此，GPT-3的成功为整个行业指明了方向，也为ChatGPT的诞生做好了技术准备。

**2021-2022年：多路径探索与竞争加速**

在GPT-3之后，谷歌、Meta等科技巨头纷纷加入大模型竞赛。谷歌发布的LaMDA（Language Model for Dialogue Applications）专门针对对话场景进行了优化，展现出更好的对话连贯性和上下文理解能力。同期，DALL-E 2的发布则展示了多模态AI的巨大潜力，能够根据文字描述生成高质量图像。

Meta的LLaMA模型系列则选择了开源路线，虽然最初只对学术机构开放，但其开源策略为后续整个生态的发展奠定了基础。开源路线的选择在后来证明极具前瞻性，为中国等国家的AI发展提供了重要参考。

**2023年：中国大模型元年**

2023年被称为中国大模型元年。从3月百度文心一言首次发布开始，中国各大科技公司纷纷在6个月内推出自己的大模型产品，形成了"百模大战"的壮观场面。这种集中爆发的现象反映了中国AI产业的整体实力和快速响应能力。

中国大模型的发展呈现出与美国不同的特点：更加注重实用性和本地化，从设计阶段就考虑中文语境、法律法规、文化背景等因素。同时，中国企业在大模型的应用落地上展现出了更强的执行力，短时间内将AI能力集成到各种产品和服务中。

**2024-2025年：技术差距缩小与竞争加剧**

进入2024年后，中美AI技术差距开始显著缩小。OpenAI发布的o1系列在推理能力上取得重大突破，中国各大厂商的模型在综合能力上快速追赶。到2025年，双方在多个技术维度上已经基本持平，标志着AI竞争进入新阶段。

这一阶段的竞争焦点从单纯的技术指标转向应用场景、用户体验、生态建设等综合实力。两国都在寻找自己的差异化优势：美国继续在基础技术和产品生态上发力，中国则在中文本土化和产业化应用上深耕细作。

![AI芯片算力对比](/Users/xuenai/Code/rag-rs/docs/imgs/ai_chips_3.jpg)

```python
print("hello world")
```
    "#;

#[test]
fn test1() {
    let parser = MarkdownParser::new("doc-001".to_string(), Some("rag.md".to_string()));
    let tree = parser.parse(TEST_MARKDOWN).unwrap();

    println!("=== 树形结构显示 ===");
    // the tree has its root plus sections and leaves
    assert!(tree.node_count() > 10);
    let root = tree.get(tree.root_id()).unwrap();
    assert_eq!(root.metadata().document_id, "doc-001");
    assert_eq!(root.metadata().file_name.as_deref(), Some("rag.md"));
}

#[test]
fn test2() {
    let parser = MarkdownParser::new("doc-002".to_string(), Some("rag_report.md".to_string()));
    let tree = parser.parse(TEST_MARKDOWN).unwrap();
    // every leaf carries the document id and a chunk-labelled hierarchy
    for leaf in tree.leaf_nodes() {
        assert_eq!(leaf.metadata.document_id, "doc-002");
        // the one synthetic segment: chunk label, or table_/img_ marker
        let last = leaf.metadata.hierarchy.last().unwrap();
        assert!(
            last.starts_with("chunk_") || last.starts_with("table_") || last.starts_with("img_")
        );
    }
    assert!(tree.leaf_nodes().len() > 5);
}

fn child_of(tree: &NodeTree, parent: &Node, idx: usize) -> rag_indexing::tree::NodeId {
    parent.children()[idx]
}

#[test]
fn heading_nesting_scenario() {
    // "# T\n## S\npara text" builds Root -> T -> S -> leaf("para text")
    let parser = MarkdownParser::new("d1".to_string(), None);
    let tree = parser.parse("# T\n## S\npara text").unwrap();

    let root = tree.get(tree.root_id()).unwrap();
    assert_eq!(root.children().len(), 1);
    let t_id = child_of(&tree, root, 0);
    let t = tree.get(t_id).unwrap();
    assert_eq!(t.title().map(|s| s.as_str()), Some("T"));
    assert_eq!(t.children().len(), 1);
    let s_id = child_of(&tree, t, 0);
    let s = tree.get(s_id).unwrap();
    assert_eq!(s.title().map(|s| s.as_str()), Some("S"));
    assert_eq!(s.children().len(), 1);
    let leaf_id = child_of(&tree, s, 0);
    let leaf_node = tree.get(leaf_id).unwrap();
    let leaf = leaf_node.as_leaf().unwrap();
    assert_eq!(leaf.text, "para text");
    assert_eq!(
        leaf.metadata.hierarchy,
        vec!["Root".to_string(), "T".to_string(), "S".to_string(), "chunk_0_9".to_string()]
    );
    assert_eq!(leaf.metadata.chunk_size, Some(9));

    // ancestors of the leaf run from the root down to the leaf itself
    let path = tree.get_ancestors(leaf_id);
    assert_eq!(path.first().unwrap().id(), tree.root_id());
    assert_eq!(path.last().unwrap().id(), leaf_id);
}

#[test]
fn rebuilding_gives_isomorphic_trees() {
    // two runs on identical input agree on everything except the ids
    let input = "# A\npara one\n## B\npara two";
    let t1 = MarkdownParser::new("d".to_string(), None).parse(input).unwrap();
    let t2 = MarkdownParser::new("d".to_string(), None).parse(input).unwrap();
    assert_eq!(t1.node_count(), t2.node_count());
    let l1 = t1.leaf_nodes();
    let l2 = t2.leaf_nodes();
    assert_eq!(l1.len(), l2.len());
    for (a, b) in l1.iter().zip(l2.iter()) {
        assert_eq!(a.text, b.text);
        assert_eq!(a.metadata.hierarchy, b.metadata.hierarchy);
        assert_ne!(a.id, b.id);
    }
}

#[test]
fn empty_heading_is_skipped() {
    let parser = MarkdownParser::new("d".to_string(), None);
    let tree = parser.parse("#   \npara").unwrap();
    let root = tree.get(tree.root_id()).unwrap();
    // no section was created; the paragraph hangs off the root
    assert_eq!(root.children().len(), 1);
    let leaf = tree.get(root.children()[0]).unwrap();
    assert!(leaf.is_leaf());
}

#[test]
fn image_leaf_carries_alt_path_and_id() {
    let parser = MarkdownParser::new("d".to_string(), None);
    let tree = parser.parse("![alt text](imgs/pic_1.jpg)").unwrap();
    let leaves = tree.leaf_nodes();
    assert_eq!(leaves.len(), 1);
    let leaf = leaves[0];
    assert_eq!(leaf.metadata.image_path.as_deref(), Some("imgs/pic_1.jpg"));
    assert_eq!(leaf.metadata.image_id.as_deref(), Some("pic_1.jpg"));
    assert_eq!(leaf.metadata.image_alt.as_deref(), Some("alt text"));
    assert!(leaf.text.starts_with("!["));
    // the image segment is the single element added to the parent's path
    assert_eq!(leaf.metadata.hierarchy, vec!["Root".to_string(), "img_0".to_string()]);
}

#[test]
fn table_becomes_one_markdown_leaf() {
    let md = "| a | b |\n|---|---|\n| 1 | 2 |\n";
    let parser = MarkdownParser::new("d".to_string(), None);
    let tree = parser.parse(md).unwrap();
    let leaves = tree.leaf_nodes();
    assert_eq!(leaves.len(), 1);
    let text = &leaves[0].text;
    assert!(text.starts_with("| a | b |\n"));
    assert!(text.contains("---"));
    assert!(text.contains("| 1 | 2 |\n"));
    // the table segment is the single element added to the parent's path
    assert_eq!(leaves[0].metadata.hierarchy, vec!["Root".to_string(), "table_0".to_string()]);
}
