# resyn

Research Synergy: literature-based discovery over the arXiv citation graph. The toolkit
crawls the references of arXiv papers, extracts their full texts section by section,
weighs their terms, groups the citation graph into communities and looks for research
gaps (contradicting findings, and "ABC bridges" between papers that do not cite each
other).

## Layout

- `src/` is the library, verified with Verus: every public function states what it
  returns in its contract.
  - reading papers: `page` (the bibliography and the sections of an arXiv HTML page),
    `arxiv_refs` (references and the arXiv ids and DOIs written in them), `sections`,
    `inspire` (InspireHEP records), `openalex` (OpenAlex works), `ingest`, `paper`,
    `records`, `ids`;
  - crawling: `crawl` (the breadth-first reference search and request spacing), `chain`
    (asking several sources in turn);
  - text: `text`, `strs`, `words`, `order`, `tfidf` (tokens, stop words, term counts,
    corpus fingerprints), `highlight` (locating a quoted snippet in a section);
  - analysis: `aggregation` (open problems, method co-occurrence), `graph`, `louvain`,
    `community`, `export`, `bridge`, `contradiction`, `gap`, `prompt`, `provider`,
    `annotation`, `extraction`, `pipeline`, `error`.
- `app/` is the command-line program around the library: downloads, JSON decoding,
  the LLM server, and the floating-point scores (TF-IDF weights, cosine similarity,
  PageRank, betweenness, c-TF-IDF, the force layout).
- `tests/` runs the library on concrete inputs.

## Commands

```
resyn crawl -p 2503.18887 -d 2 --output papers.json
resyn analyze --input papers.json --llm-provider noop --output analysis.json
resyn export-louvain-graph --input papers.json --output graph.json
resyn layout --input papers.json --output layout.json
resyn bulk-ingest --api-key KEY --output openalex.json
```

Crawled papers, analyses and exports are written as JSON files. `analyze` records the
corpus fingerprint of each analysis in `analysis_metadata.json` (`--metadata`) and skips
an analysis whose corpus has not changed since.
